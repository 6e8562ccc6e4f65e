use sudoku_solver::layout::{area_positions, column_positions, group_positions, groups_of, row_positions};
use sudoku_solver::objects::line::Alignment;
use sudoku_solver::objects::sudoku::{is_well_shaped, BuildError, GroupKind, Sudoku9x9};
use sudoku_solver::traits::{
    HasAreas, HasCells, HasColumns, HasRows, Identifiable, SimpleSudoku, Solvable, SolveMetrics,
    SudokuConfig,
};

fn table(rows: [&str; 9]) -> Vec<Vec<Option<u8>>> {
    rows.iter()
        .map(|row| {
            row.chars()
                .map(|c| if c == '.' { None } else { Some(c as u8 - b'0') })
                .collect()
        })
        .collect()
}

const EASY: [&str; 9] = [
    "53..7....",
    "6..195...",
    ".98....6.",
    "8...6...3",
    "4..8.3..1",
    "7...2...6",
    ".6....28.",
    "...419..5",
    "....8..79",
];

const SOLVED: [&str; 9] = [
    "534678912",
    "672195348",
    "198342567",
    "859761423",
    "426853791",
    "713924856",
    "961537284",
    "287419635",
    "345286179",
];

#[test]
fn test_config() {
    assert_eq!(Sudoku9x9::LENGTH, 9);
    assert_eq!(Sudoku9x9::NUMBER_OF_COLS, 9);
    assert_eq!(Sudoku9x9::NUMBER_OF_ROWS, 9);
    assert_eq!(Sudoku9x9::NUMBER_OF_COLS_IN_AREA, 3);
    assert_eq!(Sudoku9x9::NUMBER_OF_ROWS_IN_AREA, 3);
    assert_eq!(Sudoku9x9::total_number_of_cells(), 81);
    assert_eq!(Sudoku9x9::number_cells_in_area(), 9);
    assert_eq!(Sudoku9x9::number_of_areas(), 9);
}

#[test]
fn test_layout() {
    assert_eq!(row_positions(2), vec![18, 19, 20, 21, 22, 23, 24, 25, 26]);
    assert_eq!(column_positions(4), vec![4, 13, 22, 31, 40, 49, 58, 67, 76]);
    assert_eq!(area_positions(0), vec![0, 1, 2, 9, 10, 11, 18, 19, 20]);
    assert_eq!(area_positions(5), vec![33, 34, 35, 42, 43, 44, 51, 52, 53]);
    assert_eq!(area_positions(8), vec![60, 61, 62, 69, 70, 71, 78, 79, 80]);
    assert_eq!(group_positions(2), row_positions(2));
    assert_eq!(group_positions(13), column_positions(4));
    assert_eq!(group_positions(23), area_positions(5));
    assert_eq!(groups_of(0), (0, 0, 0));
    assert_eq!(groups_of(40), (4, 4, 4));
    assert_eq!(groups_of(35), (3, 8, 5));
    assert_eq!(groups_of(80), (8, 8, 8));
    assert_eq!(groups_of(57), (6, 3, 7));
}

#[test]
fn test_new_builds_cells() {
    let sudoku = Sudoku9x9::new(table(EASY));

    assert_eq!(sudoku.cells().len(), 81);
    let first = &sudoku.cells()[0];
    assert_eq!(first.id(), 1);
    assert_eq!(first.get_value(), Some(5));
    assert_eq!(first.variants(), vec![5]);
    let third = &sudoku.cells()[2];
    assert_eq!(third.id(), 3);
    assert_eq!(third.get_value(), None);
    assert_eq!(third.variants(), vec![1, 2, 3, 4, 5, 6, 7, 8, 9]);
    let last = &sudoku.cells()[80];
    assert_eq!(last.id(), 81);
    assert_eq!(last.get_value(), Some(9));
}

#[test]
fn test_new_installs_groups() {
    let sudoku = Sudoku9x9::new(table(EASY));

    for (index, cell) in sudoku.cells().iter().enumerate() {
        let row = index / 9;
        let column = index % 9;
        assert_eq!(cell.row(), Some(row));
        assert_eq!(cell.column(), Some(column));
        assert_eq!(cell.area(), Some((row / 3) * 3 + column / 3));
    }
    let cell = &sudoku.cells()[35];
    assert_eq!(cell.row(), Some(3));
    assert_eq!(cell.column(), Some(8));
    assert_eq!(cell.area(), Some(5));
}

#[test]
fn test_new_builds_groups() {
    let sudoku = Sudoku9x9::new(table(EASY));

    assert_eq!(sudoku.rows().len(), 9);
    assert_eq!(sudoku.columns().len(), 9);
    assert_eq!(sudoku.areas().len(), 9);
    for k in 0..9 {
        assert_eq!(sudoku.rows()[k].id(), k + 1);
        assert_eq!(sudoku.rows()[k].alignment(), Alignment::Row);
        assert_eq!(sudoku.rows()[k].cells(), &row_positions(k));
        assert_eq!(sudoku.columns()[k].id(), k + 1);
        assert_eq!(sudoku.columns()[k].alignment(), Alignment::Column);
        assert_eq!(sudoku.columns()[k].cells(), &column_positions(k));
        assert_eq!(sudoku.areas()[k].id(), k + 1);
        assert_eq!(sudoku.areas()[k].cells(), &area_positions(k));
    }
    assert_eq!(sudoku.areas()[4].cells(), &vec![30, 31, 32, 39, 40, 41, 48, 49, 50]);
}

#[test]
fn test_every_cell_is_in_one_row_one_column_one_area() {
    let sudoku = Sudoku9x9::new(table(EASY));

    for index in 0..81usize {
        let rows = sudoku.rows().iter().filter(|line| line.cells().contains(&index)).count();
        let columns = sudoku.columns().iter().filter(|line| line.cells().contains(&index)).count();
        let areas = sudoku.areas().iter().filter(|area| area.cells().contains(&index)).count();
        assert_eq!((rows, columns, areas), (1, 1, 1));
    }
}

#[test]
fn test_metrics() {
    let sudoku = Sudoku9x9::new(table(EASY));

    assert!(!sudoku.is_solved());
    assert_eq!(sudoku.count_solved_cells(), 30);
    assert_eq!(sudoku.solved_cells().len(), 30);
    assert_eq!(sudoku.unsolved_cells().len(), 51);
    assert_eq!(&sudoku.solved_cells()[..5], &[0, 1, 4, 9, 12]);
    assert_eq!(&sudoku.unsolved_cells()[..5], &[2, 3, 5, 6, 7]);

    let solved = Sudoku9x9::new(table(SOLVED));
    assert!(solved.is_solved());
    assert_eq!(solved.count_solved_cells(), 81);
    assert!(solved.unsolved_cells().is_empty());
}

#[test]
fn test_groups_report_solved_state() {
    let mut rows = SOLVED;
    rows[0] = "53..7....";
    let sudoku = Sudoku9x9::new(table(rows));

    assert!(!sudoku.rows()[0].is_solved(sudoku.cells()));
    assert!(sudoku.rows()[1].is_solved(sudoku.cells()));
    assert!(sudoku.columns()[0].is_solved(sudoku.cells()));
    assert!(!sudoku.columns()[2].is_solved(sudoku.cells()));
    assert!(!sudoku.areas()[0].is_solved(sudoku.cells()));
    assert!(sudoku.areas()[3].is_solved(sudoku.cells()));
    assert_eq!(sudoku.rows()[0].solved_cells(sudoku.cells()), vec![0, 1, 4]);
    assert_eq!(sudoku.rows()[0].unsolved_cells(sudoku.cells()), vec![2, 3, 5, 6, 7, 8]);
}

#[test]
fn test_try_new_accepts_a_valid_table() {
    let built = Sudoku9x9::try_new(table(EASY));

    assert!(built.is_ok());
    assert!(built.unwrap() == Sudoku9x9::new(table(EASY)));
}

#[test]
fn test_row_with_two_fives_is_refused() {
    let mut rows = EASY;
    rows[0] = "53..7..5.";

    assert_eq!(
        Sudoku9x9::try_new(table(rows)).err(),
        Some(BuildError::Duplicate { kind: GroupKind::Row, id: 1 })
    );
}

#[test]
fn test_column_duplicate_is_refused() {
    let mut rows = EASY;
    rows[8] = "5...8..79";

    assert_eq!(
        Sudoku9x9::try_new(table(rows)).err(),
        Some(BuildError::Duplicate { kind: GroupKind::Column, id: 1 })
    );
}

#[test]
fn test_area_duplicate_is_refused() {
    let mut rows = EASY;
    rows[7] = "...4198.5";

    assert_eq!(
        Sudoku9x9::try_new(table(rows)).err(),
        Some(BuildError::Duplicate { kind: GroupKind::Area, id: 9 })
    );
}

#[test]
fn test_first_conflict_is_reported() {
    let mut rows = EASY;
    rows[2] = ".98....66";
    rows[5] = "7...2..66";

    assert_eq!(
        Sudoku9x9::try_new(table(rows)).err(),
        Some(BuildError::Duplicate { kind: GroupKind::Row, id: 3 })
    );
}

#[test]
fn test_malformed_shapes_are_refused() {
    let mut short = table(EASY);
    short.pop();
    assert!(!is_well_shaped(&short));
    assert_eq!(Sudoku9x9::try_new(short).err(), Some(BuildError::MalformedShape));

    let mut long = table(EASY);
    long.push(vec![None; 9]);
    assert_eq!(Sudoku9x9::try_new(long).err(), Some(BuildError::MalformedShape));

    let mut ragged = table(EASY);
    ragged[4].pop();
    assert_eq!(Sudoku9x9::try_new(ragged).err(), Some(BuildError::MalformedShape));

    let mut wide = table(EASY);
    wide[0].push(None);
    assert_eq!(Sudoku9x9::try_new(wide).err(), Some(BuildError::MalformedShape));

    assert_eq!(Sudoku9x9::try_new(Vec::new()).err(), Some(BuildError::MalformedShape));
    assert!(is_well_shaped(&table(EASY)));
}

#[test]
fn test_round_trip_of_a_solved_table() {
    let first = Sudoku9x9::new(table(SOLVED));
    let second = Sudoku9x9::new(table(SOLVED));

    assert!(first == second);
    for (index, cell) in first.cells().iter().enumerate() {
        assert_eq!(cell.get_value(), table(SOLVED)[index / 9][index % 9]);
    }
}

#[test]
fn test_grids_are_equal_by_values_only() {
    let mut narrowed = Sudoku9x9::new(table(EASY));
    narrowed.exclude_cell_values(2, vec![5u8, 3, 9]);
    assert_eq!(narrowed.cells()[2].variants(), vec![1, 2, 4, 6, 7, 8]);
    assert!(narrowed == Sudoku9x9::new(table(EASY)));

    let mut assigned = Sudoku9x9::new(table(EASY));
    assigned.set_cell_value(2, Some(4));
    assert_eq!(assigned.cells()[2].get_value(), Some(4));
    assert!(assigned != Sudoku9x9::new(table(EASY)));
    assert!(Sudoku9x9::new(table(EASY)) != Sudoku9x9::new(table(SOLVED)));
}

#[test]
fn test_set_cell_value_keeps_a_solved_cell() {
    let mut sudoku = Sudoku9x9::new(table(EASY));

    sudoku.set_cell_value(0, Some(1));

    assert_eq!(sudoku.cells()[0].get_value(), Some(5));
    assert_eq!(sudoku.count_solved_cells(), 30);
}

#[test]
fn test_exclude_cell_values_settles_a_cell() {
    let mut sudoku = Sudoku9x9::new(table(EASY));

    assert!(!sudoku.exclude_cell_values(2, vec![1u8, 2, 3]));
    assert!(sudoku.exclude_cell_values(2, vec![5u8, 6, 7, 8, 9]));

    assert_eq!(sudoku.cells()[2].get_value(), Some(4));
    assert_eq!(sudoku.cells()[2].row(), Some(0));
    assert_eq!(sudoku.count_solved_cells(), 31);
}

#[test]
fn test_clone_is_a_copy_of_its_own() {
    let sudoku = Sudoku9x9::new(table(EASY));
    let mut copy = sudoku.clone();

    assert!(copy == sudoku);
    copy.set_cell_value(2, Some(4));
    assert!(copy != sudoku);
    assert_eq!(sudoku.cells()[2].get_value(), None);
    assert_eq!(copy.rows()[0].cells(), sudoku.rows()[0].cells());
}
