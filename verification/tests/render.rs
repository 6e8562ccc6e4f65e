use sudoku_solver::objects::cell::Cell;
use sudoku_solver::objects::line::{Alignment, Line};
use sudoku_solver::objects::sudoku::Sudoku9x9;
use sudoku_solver::render::{
    digit_str, push_cell, push_number, render_cell, render_cell_ids, render_grid, render_ids,
    render_line,
};
use sudoku_solver::traits::{HasAreas, HasCells, HasColumns, HasRows, SimpleSudoku};

fn table(rows: [&str; 9]) -> Vec<Vec<Option<u8>>> {
    rows.iter()
        .map(|row| {
            row.chars()
                .map(|c| if c == '.' { None } else { Some(c as u8 - b'0') })
                .collect()
        })
        .collect()
}

const EASY: [&str; 9] = [
    "53..7....",
    "6..195...",
    ".98....6.",
    "8...6...3",
    "4..8.3..1",
    "7...2...6",
    ".6....28.",
    "...419..5",
    "....8..79",
];

#[test]
fn test_grid_text() {
    let sudoku = Sudoku9x9::new(table(EASY));

    assert_eq!(
        sudoku.to_text(),
        "\n5 3 * | * 7 * | * * * \n6 * * | 1 9 5 | * * * \n* 9 8 | * * * | * 6 * \n------+-------+------\n8 * * | * 6 * | * * 3 \n4 * * | 8 * 3 | * * 1 \n7 * * | * 2 * | * * 6 \n------+-------+------\n* 6 * | * * * | 2 8 * \n* * * | 4 1 9 | * * 5 \n* * * | * 8 * | * 7 9 \n"
    );
    assert_eq!(render_grid(sudoku.cells()), sudoku.to_text());
}

#[test]
fn test_grid_text_with_wide_values() {
    let mut rows = table(EASY);
    rows[0][2] = Some(12);
    rows[8][0] = Some(255);
    let sudoku = Sudoku9x9::new(rows);

    let text = sudoku.to_text();

    assert!(text.starts_with("\n5 3 12 | * 7 * | * * * \n"));
    assert!(text.ends_with("\n255 * * | * 8 * | * 7 9 \n"));
}

#[test]
fn test_line_text() {
    let sudoku = Sudoku9x9::new(table(EASY));

    assert_eq!(sudoku.rows()[0].to_text(sudoku.cells()), "Row-1 [5 3 * * 7 * * * *]");
    assert_eq!(sudoku.rows()[8].to_text(sudoku.cells()), "Row-9 [* * * * 8 * * 7 9]");
    assert_eq!(sudoku.columns()[0].to_text(sudoku.cells()), "Col-1 [5 6 * 8 4 7 * * *]");
}

#[test]
fn test_line_text_of_any_line() {
    let cells = vec![Cell::new(1, Some(200), vec![200]), Cell::new(2, None, vec![1, 2])];

    let line = Line::new(1234, Alignment::Column, vec![1, 0], &cells);
    assert_eq!(line.to_text(&cells), "Col-1234 [* 200]");
    assert_eq!(render_line(true, 0, &Vec::new(), &cells), "Row-0 []");
    assert_eq!(render_line(false, 10, &vec![0], &cells), "Col-10 [200]");
}

#[test]
fn test_number_text() {
    for n in [0usize, 7, 9, 10, 42, 99, 100, 255, 1000, 65535, 4294967295] {
        let mut text = String::from("x");
        push_number(&mut text, n);
        assert_eq!(text, format!("x{}", n));
    }
    assert_eq!(digit_str(0), "0");
    assert_eq!(digit_str(9), "9");
}

#[test]
fn test_cell_text() {
    let mut text = String::new();
    push_cell(&mut text, Some(3));
    push_cell(&mut text, None);
    push_cell(&mut text, Some(81));
    assert_eq!(text, "3 * 81 ");
}

#[test]
fn test_ids_text() {
    let sudoku = Sudoku9x9::new(table(EASY));

    assert_eq!(sudoku.rows()[0].ids_text(sudoku.cells()), "1 [1, 2, 3, 4, 5, 6, 7, 8, 9]");
    assert_eq!(
        sudoku.columns()[8].ids_text(sudoku.cells()),
        "9 [9, 18, 27, 36, 45, 54, 63, 72, 81]"
    );
    assert_eq!(
        sudoku.areas()[4].ids_text(sudoku.cells()),
        "5 [31, 32, 33, 40, 41, 42, 49, 50, 51]"
    );
    assert_eq!(render_ids(7, &Vec::new(), sudoku.cells()), "7 []");
    assert_eq!(render_ids(12, &vec![80], sudoku.cells()), "12 [81]");
}

#[test]
fn test_cell_ids_text() {
    let sudoku = Sudoku9x9::new(table(EASY));

    let text = render_cell_ids(sudoku.cells());

    assert!(text.starts_with("1  2  3  4  5  6  7  8  9  \n10 11 12 13 14 15 16 17 18 \n19 "));
    assert!(text.ends_with("\n73 74 75 76 77 78 79 80 81 \n"));
    assert_eq!(text.lines().count(), 9);
    assert_eq!(render_cell_ids(&Vec::new()), "\n");
}

#[test]
fn test_solved_cell_text() {
    let cell = Cell::new(17, Some(5), vec![5]);

    assert_eq!(cell.to_text(false), "5");
    assert_eq!(cell.to_text(true), "Cell {id: 17, value: 5}");
    assert_eq!(render_cell(&Cell::new(3, Some(210), vec![]), true), "Cell {id: 3, value: 210}");
}
