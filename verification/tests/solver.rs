use sudoku_solver::helpers::has_duplicate_values;
use sudoku_solver::layout::group_positions;
use sudoku_solver::objects::sudoku::Sudoku9x9;
use sudoku_solver::solver::{solve_puzzle, SolveReport, Solver};
use sudoku_solver::strategies::rule::Rule;
use sudoku_solver::strategies::excluded_from_siblings::ExcludedFromSiblingsInRow;
use sudoku_solver::strategies::last_possible::LastPossibleNumberStrategy;
use sudoku_solver::traits::Solver as Engine;
use sudoku_solver::traits::{HasCells, SimpleSudoku, Solvable, Strategy};

fn table(rows: [&str; 9]) -> Vec<Vec<Option<u8>>> {
    rows.iter()
        .map(|row| {
            row.chars()
                .map(|c| if c == '.' { None } else { Some(c as u8 - b'0') })
                .collect()
        })
        .collect()
}

const SOLVED: [&str; 9] = [
    "534678912",
    "672195348",
    "198342567",
    "859761423",
    "426853791",
    "713924856",
    "961537284",
    "287419635",
    "345286179",
];

const MIXED: [&str; 9] = [
    "5...7....",
    "67...5.4.",
    "..8..2.67",
    "85.7..4.3",
    "42...3.9.",
    ".1..24.5.",
    "96.53.2..",
    "2.741.6..",
    "..5....7.",
];

const SPARSE: [&str; 9] = [
    "4.....8.5",
    ".3.......",
    "...7.....",
    ".2.....6.",
    "....8.4..",
    "....1....",
    "...6.3.7.",
    "5..2.....",
    "1.4......",
];

#[test]
fn test_alternating_strategies_solve_the_puzzle() {
    let mut solver: Solver<Box<dyn Strategy>> = Solver::new(Sudoku9x9::new(table(MIXED)));
    solver.add_strategy(Box::new(ExcludedFromSiblingsInRow));
    solver.add_strategy(Box::new(LastPossibleNumberStrategy));

    let report = solver.solve();

    assert_eq!(report, SolveReport { solved: true, unsolved: 0, passes: 3 });
    assert!(report.passes <= 81);
    assert_eq!(solver.solved_text(), "Yes");
    assert!(solver.sudoku().is_solved());
    assert!(solver.into_sudoku() == Sudoku9x9::new(table(SOLVED)));
}

#[test]
fn test_order_of_strategies_is_kept() {
    let mut solver: Solver<Box<dyn Strategy>> = Solver::new(Sudoku9x9::new(table(MIXED)));
    solver.add_strategy(Box::new(LastPossibleNumberStrategy));
    solver.add_strategy(Box::new(ExcludedFromSiblingsInRow));

    let report = solver.solve();

    assert_eq!(report, SolveReport { solved: true, unsolved: 0, passes: 3 });
    assert!(solver.into_sudoku() == Sudoku9x9::new(table(SOLVED)));
}

#[test]
fn test_one_strategy_alone_stalls() {
    let mut solver: Solver<Box<dyn Strategy>> = Solver::new(Sudoku9x9::new(table(MIXED)));
    solver.add_strategy(Box::new(LastPossibleNumberStrategy));

    let report = solver.solve();

    assert_eq!(report, SolveReport { solved: false, unsolved: 32, passes: 2 });
    assert_eq!(solver.solved_text(), "No");
}

#[test]
fn test_stall_is_reported_not_raised() {
    let mut solver: Solver<Box<dyn Strategy>> = Solver::new(Sudoku9x9::new(table(SPARSE)));
    solver.add_strategy(Box::new(LastPossibleNumberStrategy));
    solver.add_strategy(Box::new(ExcludedFromSiblingsInRow));

    let report = solver.solve();

    assert_eq!(report, SolveReport { solved: false, unsolved: 64, passes: 1 });
    let sudoku = solver.into_sudoku();
    assert!(sudoku == Sudoku9x9::new(table(SPARSE)));
    assert_eq!(sudoku.cells()[1].variants(), vec![1, 6, 7, 9]);
    assert_eq!(sudoku.cells()[9].variants(), vec![2, 6, 7, 8, 9]);
}

#[test]
fn test_no_strategy_means_one_idle_pass() {
    let mut solver: Solver<Box<dyn Strategy>> = Solver::new(Sudoku9x9::new(table(MIXED)));

    let report = solver.solve();

    assert_eq!(report, SolveReport { solved: false, unsolved: 46, passes: 1 });
    assert!(solver.into_sudoku() == Sudoku9x9::new(table(MIXED)));
}

#[test]
fn test_a_solved_grid_takes_one_pass() {
    let mut solver: Solver<Box<dyn Strategy>> = Solver::new(Sudoku9x9::new(table(SOLVED)));
    solver.add_strategy(Box::new(ExcludedFromSiblingsInRow));
    solver.add_strategy(Box::new(LastPossibleNumberStrategy));

    let report = solver.solve();

    assert_eq!(report, SolveReport { solved: true, unsolved: 0, passes: 1 });

    let mut idle: Solver<Rule> = Solver::new(Sudoku9x9::new(table(SOLVED)));
    assert_eq!(idle.solve(), SolveReport { solved: true, unsolved: 0, passes: 1 });
}

#[test]
fn test_no_group_holds_a_value_twice_after_solving() {
    let mut solver: Solver<Box<dyn Strategy>> = Solver::new(Sudoku9x9::new(table(MIXED)));
    solver.add_strategy(Box::new(LastPossibleNumberStrategy));
    solver.add_strategy(Box::new(ExcludedFromSiblingsInRow));
    solver.solve();
    let sudoku = solver.into_sudoku();

    for group in 0..27 {
        assert!(!has_duplicate_values(&group_positions(group), sudoku.cells()));
    }
}

#[test]
fn test_solver_through_its_trait() {
    let mut solver = <Solver<Rule> as Engine<Rule>>::new(Sudoku9x9::new(table(MIXED)));
    Engine::add_strategy(&mut solver, Rule::LastPossibleNumber);
    Engine::add_strategy(&mut solver, Rule::ExcludedFromSiblingsInRow);

    let report = Engine::solve(&mut solver);

    assert!(report.solved);
    assert_eq!(report.passes, 3);
}

#[test]
fn test_solver_of_one_kind_of_strategy() {
    let mut solver: Solver<LastPossibleNumberStrategy> = Solver::new(Sudoku9x9::new(table(MIXED)));
    solver.add_strategy(LastPossibleNumberStrategy);

    assert_eq!(solver.solve(), SolveReport { solved: false, unsolved: 32, passes: 2 });
}

#[test]
fn test_solve_puzzle() {
    let (sudoku, report) = solve_puzzle(Sudoku9x9::new(table(MIXED)));

    assert_eq!(report, SolveReport { solved: true, unsolved: 0, passes: 3 });
    assert!(sudoku == Sudoku9x9::new(table(SOLVED)));

    let (stalled, report) = solve_puzzle(Sudoku9x9::new(table(SPARSE)));
    assert_eq!(report, SolveReport { solved: false, unsolved: 64, passes: 1 });
    assert!(stalled == Sudoku9x9::new(table(SPARSE)));
}

#[test]
fn test_solve_puzzle_repairs_an_unpruned_row() {
    let mut rows = SOLVED;
    rows[0] = "5.4678912";

    let (sudoku, report) = solve_puzzle(Sudoku9x9::new(table(rows)));

    assert!(report.solved);
    assert_eq!(sudoku.cells()[1].get_value(), Some(3));
    assert!(sudoku == Sudoku9x9::new(table(SOLVED)));
}

#[test]
fn test_rule_runs_the_strategy_it_names() {
    let mut by_rule = Sudoku9x9::new(table(MIXED));
    let mut by_strategy = Sudoku9x9::new(table(MIXED));

    Rule::LastPossibleNumber.run(&mut by_rule);
    LastPossibleNumberStrategy.run(&mut by_strategy);
    assert!(by_rule == by_strategy);
    assert_eq!(by_rule.cells()[1].variants(), by_strategy.cells()[1].variants());

    Rule::ExcludedFromSiblingsInRow.run(&mut by_rule);
    ExcludedFromSiblingsInRow.run(&mut by_strategy);
    assert!(by_rule == by_strategy);
    assert_eq!(by_rule.cells().iter().filter(|c| c.is_solved()).count(), 55);
}

fn striking_first_table() -> Vec<Vec<Option<u8>>> {
    let mut data = vec![vec![None; 9]; 9];
    data[0] = vec![None, None, None, Some(1), Some(2), Some(3), Some(5), Some(6), Some(7)];
    data[3][0] = Some(4);
    data[6][1] = Some(4);
    data
}

#[test]
fn test_striking_first_loses_no_progress() {
    let (sudoku, report) = solve_puzzle(Sudoku9x9::new(striking_first_table()));

    assert_eq!(report, SolveReport { solved: false, unsolved: 72, passes: 2 });
    assert_eq!(sudoku.cells()[2].get_value(), Some(4));
    assert_eq!(sudoku.cells()[0].variants(), vec![8, 9]);
    assert_eq!(sudoku.cells()[1].variants(), vec![8, 9]);

    let (again, second) = solve_puzzle(sudoku.clone());
    assert_eq!(second, SolveReport { solved: false, unsolved: 72, passes: 1 });
    assert!(again == sudoku);
    for index in 0..81 {
        assert_eq!(again.cells()[index].variants(), sudoku.cells()[index].variants());
    }
}

#[test]
fn test_a_pass_that_solves_no_cell_ends_the_run() {
    let mut solver: Solver<Rule> = Solver::new(Sudoku9x9::new(striking_first_table()));
    solver.add_strategy(Rule::ExcludedFromSiblingsInRow);
    solver.add_strategy(Rule::LastPossibleNumber);

    let report = solver.solve();

    assert_eq!(report, SolveReport { solved: false, unsolved: 73, passes: 1 });
    assert_eq!(solver.sudoku().cells()[2].get_value(), None);
    assert_eq!(solver.sudoku().cells()[2].variants(), vec![4, 8, 9]);
}
