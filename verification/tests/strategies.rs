use sudoku_solver::objects::sudoku::Sudoku9x9;
use sudoku_solver::strategies::excluded_from_siblings::{possible_cells, ExcludedFromSiblingsInRow};
use sudoku_solver::strategies::last_possible::{collect_values, peer_values, LastPossibleNumberStrategy};
use sudoku_solver::traits::{HasCells, HasRows, SimpleSudoku, Solvable, SolveMetrics, Strategy};
use std::collections::HashSet;

fn table(rows: [&str; 9]) -> Vec<Vec<Option<u8>>> {
    rows.iter()
        .map(|row| {
            row.chars()
                .map(|c| if c == '.' { None } else { Some(c as u8 - b'0') })
                .collect()
        })
        .collect()
}

fn values(sudoku: &Sudoku9x9) -> Vec<String> {
    (0..9)
        .map(|row| {
            (0..9)
                .map(|col| match sudoku.cells()[row * 9 + col].get_value() {
                    Some(v) => (b'0' + v) as char,
                    None => '.',
                })
                .collect()
        })
        .collect()
}

const SOLVED: [&str; 9] = [
    "534678912",
    "672195348",
    "198342567",
    "859761423",
    "426853791",
    "713924856",
    "961537284",
    "287419635",
    "345286179",
];

const MIXED: [&str; 9] = [
    "5...7....",
    "67...5.4.",
    "..8..2.67",
    "85.7..4.3",
    "42...3.9.",
    ".1..24.5.",
    "96.53.2..",
    "2.741.6..",
    "..5....7.",
];

#[test]
fn test_peer_values() {
    let sudoku = Sudoku9x9::new(table(MIXED));

    let mut expected: HashSet<u8> = HashSet::new();
    for v in [5u8, 7, 6, 8, 1, 2] {
        expected.insert(v);
    }
    assert_eq!(peer_values(&sudoku, 1), expected);

    let mut own: HashSet<u8> = HashSet::new();
    for v in [7u8, 6, 8, 4, 9, 2] {
        own.insert(v);
    }
    assert_eq!(peer_values(&sudoku, 0), own);
}

#[test]
fn test_collect_values_leaves_the_cell_out() {
    let sudoku = Sudoku9x9::new(table(MIXED));
    let mut items: HashSet<u8> = HashSet::new();
    items.insert(9);

    collect_values(&sudoku, sudoku.rows()[0].cells(), 0, &mut items);

    let mut expected: HashSet<u8> = HashSet::new();
    expected.insert(9);
    expected.insert(7);
    assert_eq!(items, expected);
}

#[test]
fn test_last_possible_fills_a_row_that_its_peers_pin() {
    let mut rows = SOLVED;
    rows[0] = "53..7....";
    let mut sudoku = Sudoku9x9::new(table(rows));

    LastPossibleNumberStrategy.run(&mut sudoku);

    assert!(sudoku.is_solved());
    assert!(sudoku == Sudoku9x9::new(table(SOLVED)));
    assert_eq!(values(&sudoku)[0], "534678912");
}

#[test]
fn test_last_possible_stops_at_its_fixed_point() {
    let mut sudoku = Sudoku9x9::new(table(MIXED));

    LastPossibleNumberStrategy.run(&mut sudoku);

    assert_eq!(sudoku.count_solved_cells(), 49);
    assert_eq!(
        values(&sudoku),
        vec![
            "5...7....",
            "67...5.4.",
            "..8..2.67",
            "859761423",
            "426853791",
            "713924856",
            "96.53.2..",
            "2.741.6..",
            "..5....7."
        ]
    );
    assert_eq!(sudoku.cells()[1].variants(), vec![3, 4, 9]);
    assert_eq!(sudoku.cells()[2].variants(), vec![1, 2, 4]);
    assert_eq!(sudoku.cells()[3].variants(), vec![1, 3, 6]);
    assert_eq!(sudoku.cells()[8].variants(), vec![2, 8, 9]);

    LastPossibleNumberStrategy.run(&mut sudoku);
    assert_eq!(sudoku.count_solved_cells(), 49);
    assert_eq!(sudoku.cells()[1].variants(), vec![3, 4, 9]);
}

#[test]
fn test_last_possible_leaves_a_pruned_board() {
    let mut sudoku = Sudoku9x9::new(table(MIXED));

    LastPossibleNumberStrategy.run(&mut sudoku);

    for index in 0..81 {
        let cell = &sudoku.cells()[index];
        if !cell.is_solved() {
            let around = peer_values(&sudoku, index);
            assert!(cell.variants().iter().all(|d| !around.contains(d)));
        }
    }
}

#[test]
fn test_last_possible_never_strikes_the_solution() {
    let mut sudoku = Sudoku9x9::new(table(MIXED));
    let solution = table(SOLVED);

    LastPossibleNumberStrategy.run(&mut sudoku);

    for (index, cell) in sudoku.cells().iter().enumerate() {
        let digit = solution[index / 9][index % 9].unwrap();
        assert!(cell.variants().contains(&digit));
        assert!(cell.get_value().is_none() || cell.get_value() == Some(digit));
    }
}

#[test]
fn test_possible_cells() {
    let mut sudoku = Sudoku9x9::new(table(MIXED));
    LastPossibleNumberStrategy.run(&mut sudoku);

    assert_eq!(possible_cells(&sudoku, sudoku.rows()[0].cells(), 4), vec![1, 2]);
    assert_eq!(possible_cells(&sudoku, sudoku.rows()[0].cells(), 6), vec![3, 5]);
    assert_eq!(possible_cells(&sudoku, sudoku.rows()[0].cells(), 5), Vec::<usize>::new());
    assert_eq!(possible_cells(&sudoku, sudoku.rows()[2].cells(), 5), vec![24]);
}

#[test]
fn test_row_rule_gives_four_to_its_only_taker() {
    let mut sudoku = Sudoku9x9::new(vec![vec![None; 9]; 9]);
    for index in 1..9 {
        sudoku.exclude_cell_values(index, 4u8);
    }

    ExcludedFromSiblingsInRow.run(&mut sudoku);

    assert_eq!(sudoku.cells()[0].get_value(), Some(4));
    assert_eq!(sudoku.cells()[0].variants(), vec![4]);
    assert_eq!(sudoku.count_solved_cells(), 1);
    for index in 1..9 {
        assert_eq!(sudoku.cells()[index].get_value(), None);
        assert_eq!(sudoku.cells()[index].variants(), vec![1, 2, 3, 5, 6, 7, 8, 9]);
    }
    for index in 9..81 {
        assert_eq!(sudoku.cells()[index].get_value(), None);
        assert_eq!(sudoku.cells()[index].variants().len(), 9);
    }
}

#[test]
fn test_row_rule_after_pruning() {
    let mut sudoku = Sudoku9x9::new(table(MIXED));
    LastPossibleNumberStrategy.run(&mut sudoku);

    ExcludedFromSiblingsInRow.run(&mut sudoku);

    assert_eq!(sudoku.count_solved_cells(), 55);
    assert_eq!(
        values(&sudoku),
        vec![
            "5...7....",
            "67...5.4.",
            "..8..2567",
            "859761423",
            "426853791",
            "713924856",
            "96.5372..",
            "2.74196.5",
            "..52.6.7."
        ]
    );
}

#[test]
fn test_row_rule_does_nothing_on_a_fresh_puzzle() {
    let mut sudoku = Sudoku9x9::new(table(MIXED));

    ExcludedFromSiblingsInRow.run(&mut sudoku);

    assert!(sudoku == Sudoku9x9::new(table(MIXED)));
    assert_eq!(sudoku.count_solved_cells(), 35);
}

#[test]
fn test_row_rule_takes_the_first_digit_on_an_unpruned_row() {
    let mut rows = SOLVED;
    rows[0] = "5.4678912";
    let mut sudoku = Sudoku9x9::new(table(rows));

    ExcludedFromSiblingsInRow.run(&mut sudoku);

    assert_eq!(sudoku.cells()[1].get_value(), Some(1));
}

#[test]
fn test_strategies_only_narrow() {
    let mut sudoku = Sudoku9x9::new(table(MIXED));
    let mut sizes: Vec<usize> = sudoku.cells().iter().map(|c| c.variants().len()).collect();
    let mut solved = sudoku.count_solved_cells();
    let mut known: Vec<Option<u8>> = sudoku.cells().iter().map(|c| c.get_value()).collect();

    for round in 0..6 {
        if round % 2 == 0 {
            LastPossibleNumberStrategy.run(&mut sudoku);
        } else {
            ExcludedFromSiblingsInRow.run(&mut sudoku);
        }
        for (index, cell) in sudoku.cells().iter().enumerate() {
            assert!(cell.variants().len() <= sizes[index]);
            if known[index].is_some() {
                assert_eq!(cell.get_value(), known[index]);
            }
        }
        assert!(sudoku.count_solved_cells() >= solved);
        sizes = sudoku.cells().iter().map(|c| c.variants().len()).collect();
        solved = sudoku.count_solved_cells();
        known = sudoku.cells().iter().map(|c| c.get_value()).collect();
    }
    assert!(sudoku.is_solved());
}
