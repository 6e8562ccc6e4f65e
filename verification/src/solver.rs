use crate::objects::cell::CellView;
use crate::objects::sudoku::{Sudoku9x9, SudokuView};
use crate::rules::{
    advances, consistent, fully_solved, groups_distinct, is_solution, lemma_advances_count,
    lemma_advances_refl, lemma_advances_solved, lemma_advances_trans, lemma_consistent_is_distinct,
    lemma_fully_solved, rows_pruned, unsolved_count,
};
use crate::strategies::excluded_from_siblings::{
    lemma_place_to_fixpoint, lemma_place_to_fixpoint_quiet, lemma_place_to_fixpoint_sound,
    place_to_fixpoint,
};
use crate::strategies::last_possible::{
    lemma_strike_to_fixpoint, lemma_strike_to_fixpoint_pruned, lemma_strike_to_fixpoint_settled,
    lemma_strike_to_fixpoint_sound, strike_to_fixpoint,
};
use crate::strategies::rule::Rule;
use crate::traits::{HasCells, Solvable, SolveMetrics, Strategy};
use vstd::prelude::*;

verus! {

/// How a run of the solver ended.
#[derive(Debug, Clone, Copy, PartialEq, Eq, Structural)]
pub struct SolveReport {
    /// Whether every cell is solved.
    pub solved: bool,
    /// How many cells are still unsolved: more than none means a stall.
    pub unsolved: usize,
    /// How many passes over the strategies were made.
    pub passes: usize,
}

/// The board after the first `k` strategies of one pass: each runs once, in
/// order, and none runs once the board is fully solved.
pub open spec fn pass_upto<T: Strategy>(rules: Seq<T>, board: Seq<CellView>, k: nat) -> Seq<
    CellView,
>
    decreases k,
{
    if k == 0 {
        board
    } else {
        let before = pass_upto(rules, board, (k - 1) as nat);
        if k > 1 && fully_solved(before) {
            before
        } else {
            rules[k - 1].outcome(before)
        }
    }
}

/// The board after one pass over all strategies.
pub open spec fn pass<T: Strategy>(rules: Seq<T>, board: Seq<CellView>) -> Seq<CellView> {
    pass_upto(rules, board, rules.len())
}

/// Whether the solver stops after a pass that turned `board` into `next`:
/// the board is solved, or the pass solved no cell.
pub open spec fn stops(board: Seq<CellView>, next: Seq<CellView>) -> bool {
    fully_solved(next) || unsolved_count(next) >= unsolved_count(board)
}

/// The board that the solver leaves: passes over the strategies, repeated
/// until one solves the board or solves no cell.
pub open spec fn solve_outcome<T: Strategy>(rules: Seq<T>, board: Seq<CellView>) -> Seq<CellView>
    decreases unsolved_count(board),
{
    let next = pass(rules, board);
    if stops(board, next) {
        next
    } else {
        solve_outcome(rules, next)
    }
}

/// The number of passes that the solver makes.
pub open spec fn solve_passes<T: Strategy>(rules: Seq<T>, board: Seq<CellView>) -> nat
    decreases unsolved_count(board),
{
    let next = pass(rules, board);
    if stops(board, next) {
        1
    } else {
        1 + solve_passes(rules, next)
    }
}

/// Once a pass has solved the board, the strategies that follow leave it as
/// it is.
pub proof fn lemma_pass_stays<T: Strategy>(rules: Seq<T>, board: Seq<CellView>, k: nat, m: nat)
    requires
        1 <= k <= m,
        fully_solved(pass_upto(rules, board, k)),
    ensures
        pass_upto(rules, board, m) == pass_upto(rules, board, k),
    decreases m,
{
    if m > k {
        lemma_pass_stays(rules, board, k, (m - 1) as nat);
    }
}

/// The solver makes at least one pass and at most as many as there are
/// unsolved cells, so never more than there are cells.
pub proof fn lemma_passes_bounded<T: Strategy>(rules: Seq<T>, board: Seq<CellView>)
    ensures
        1 <= solve_passes(rules, board),
        solve_passes(rules, board) <= if unsolved_count(board) == 0 {
            1
        } else {
            unsolved_count(board)
        },
        solve_passes(rules, board) <= if board.len() == 0 {
            1
        } else {
            board.len()
        },
    decreases unsolved_count(board),
{
    let next = pass(rules, board);
    lemma_fully_solved(board);
    if !stops(board, next) {
        lemma_passes_bounded(rules, next);
        lemma_fully_solved(next);
    }
}

/// The engine: a grid and the strategies that are run on it, in the order
/// in which they were added.
pub struct Solver<T: Strategy> {
    sudoku: Sudoku9x9,
    strategies: Vec<T>,
}

impl<T: Strategy> Solver<T> {
    /// The grid that the solver works on.
    pub closed spec fn grid(&self) -> SudokuView {
        self.sudoku@
    }

    /// The strategies that were added, oldest first.
    pub closed spec fn rules(&self) -> Seq<T> {
        self.strategies@
    }

    /// A solver for `sudoku` with no strategy yet.
    pub fn new(sudoku: Sudoku9x9) -> (solver: Solver<T>)
        ensures
            solver.grid() == sudoku@,
            solver.rules() == Seq::<T>::empty(),
    {
        Solver { sudoku, strategies: Vec::new() }
    }

    /// Adds `strategy` behind those that were added before.
    pub fn add_strategy(&mut self, strategy: T)
        ensures
            final(self).rules() == old(self).rules().push(strategy),
            final(self).grid() == old(self).grid(),
    {
        self.strategies.push(strategy);
    }

    /// The grid as it stands.
    pub fn sudoku(&self) -> (sudoku: &Sudoku9x9)
        ensures
            sudoku@ == self.grid(),
    {
        &self.sudoku
    }

    /// Gives the grid back.
    pub fn into_sudoku(self) -> (sudoku: Sudoku9x9)
        ensures
            sudoku@ == self.grid(),
    {
        self.sudoku
    }

    /// `Yes` if every cell of the grid is solved, else `No`.
    pub fn solved_text(&self) -> (text: &'static str)
        ensures
            text@ == if fully_solved(self.grid().cells) {
                seq!['Y', 'e', 's']
            } else {
                seq!['N', 'o']
            },
    {
        proof {
            reveal_strlit("Yes");
            reveal_strlit("No");
        }
        if self.sudoku.is_solved() {
            let text = "Yes";
            assert(text@ =~= seq!['Y', 'e', 's']);
            text
        } else {
            let text = "No";
            assert(text@ =~= seq!['N', 'o']);
            text
        }
    }

    /// Runs the strategies, in order, pass after pass. A pass ends early
    /// once the grid is solved. The solver stops after the pass that solves
    /// the grid, or after the first pass that solves no cell: a stall,
    /// which the report shows by the cells still unsolved.
    pub fn solve(&mut self) -> (report: SolveReport)
        requires
            old(self).grid().wf(),
        ensures
            final(self).rules() == old(self).rules(),
            final(self).grid() == old(self).grid().with_cells(
                solve_outcome(old(self).rules(), old(self).grid().cells),
            ),
            final(self).grid().wf(),
            advances(old(self).grid().cells, final(self).grid().cells),
            report.solved == fully_solved(final(self).grid().cells),
            report.unsolved == unsolved_count(final(self).grid().cells),
            report.passes == solve_passes(old(self).rules(), old(self).grid().cells),
            1 <= report.passes <= 81,
    {
        let ghost origin = self.sudoku@;
        let ghost rules = self.rules();
        let mut passes: usize = 0;
        let mut running = true;
        proof {
            lemma_advances_refl(origin.cells);
            lemma_passes_bounded(rules, origin.cells);
        }
        while running
            invariant
                origin == old(self).grid(),
                rules == old(self).rules(),
                self.rules() == rules,
                origin.wf(),
                self.sudoku@.wf(),
                self.sudoku@ == origin.with_cells(self.sudoku@.cells),
                advances(origin.cells, self.sudoku@.cells),
                running ==> solve_outcome(rules, self.sudoku@.cells) == solve_outcome(
                    rules,
                    origin.cells,
                ),
                running ==> passes + solve_passes(rules, self.sudoku@.cells) == solve_passes(
                    rules,
                    origin.cells,
                ),
                !running ==> self.sudoku@.cells == solve_outcome(rules, origin.cells),
                !running ==> passes == solve_passes(rules, origin.cells),
                solve_passes(rules, origin.cells) <= 81,
            decreases
                unsolved_count(self.sudoku@.cells) + if running {
                    1nat
                } else {
                    0nat
                },
        {
            let ghost start = self.sudoku@.cells;
            let solved_before = self.sudoku.count_solved_cells();
            proof {
                lemma_passes_bounded(rules, start);
                lemma_advances_refl(start);
                lemma_fully_solved(start);
            }
            passes += 1;
            let mut k: usize = 0;
            let mut solved = false;
            while k < self.strategies.len() && !solved
                invariant
                    k <= rules.len(),
                    self.rules() == rules,
                    origin.wf(),
                    self.sudoku@.wf(),
                    self.sudoku@ == origin.with_cells(self.sudoku@.cells),
                    self.sudoku@.cells == pass_upto(rules, start, k as nat),
                    advances(start, self.sudoku@.cells),
                    solved ==> k >= 1 && fully_solved(self.sudoku@.cells),
                    !solved && k >= 1 ==> !fully_solved(self.sudoku@.cells),
                decreases rules.len() - k,
            {
                let ghost before = self.sudoku@.cells;
                self.strategies[k].run(&mut self.sudoku);
                proof {
                    lemma_advances_trans(start, before, self.sudoku@.cells);
                }
                solved = self.sudoku.is_solved();
                k += 1;
            }
            proof {
                if solved {
                    lemma_pass_stays(rules, start, k as nat, rules.len());
                }
                assert(self.sudoku@.cells == pass(rules, start));
                lemma_advances_count(start, self.sudoku@.cells, 81);
                lemma_advances_trans(origin.cells, start, self.sudoku@.cells);
                lemma_fully_solved(self.sudoku@.cells);
            }
            if solved {
                running = false;
            } else {
                let solved_now = self.sudoku.count_solved_cells();
                if solved_now == solved_before {
                    running = false;
                }
            }
        }
        let solved = self.sudoku.is_solved();
        let solved_cells = self.sudoku.count_solved_cells();
        proof {
            lemma_fully_solved(self.sudoku@.cells);
        }
        SolveReport { solved, unsolved: 81 - solved_cells, passes }
    }
}

impl<T: Strategy> crate::traits::Solver<T> for Solver<T> {
    closed spec fn board(&self) -> SudokuView {
        self.sudoku@
    }

    closed spec fn strategies(&self) -> Seq<T> {
        self.strategies@
    }

    fn new(sudoku: Sudoku9x9) -> (solver: Solver<T>) {
        Solver { sudoku, strategies: Vec::new() }
    }

    fn solve(&mut self) -> (report: SolveReport) {
        Solver::solve(self)
    }

    fn add_strategy(&mut self, strategy: T) {
        self.strategies.push(strategy);
    }
}

/// Whether the strategy at place `i` is the rule that strikes the digits
/// solved among the peers of a cell.
pub open spec fn strikes<T: Strategy>(rules: Seq<T>, i: int) -> bool {
    forall|b: Seq<CellView>| #![trigger rules[i].outcome(b)] rules[i].outcome(b)
        == strike_to_fixpoint(b)
}

/// Whether the strategy at place `i` is the rule that gives a digit to its
/// only taker in a row.
pub open spec fn places<T: Strategy>(rules: Seq<T>, i: int) -> bool {
    forall|b: Seq<CellView>| #![trigger rules[i].outcome(b)] rules[i].outcome(b)
        == place_to_fixpoint(b)
}

/// What the first strategy establishes and every strategy keeps, a pass
/// keeps: `start` holds on the way in, `kept` from the first strategy on.
pub proof fn lemma_pass_keeps<T: Strategy>(
    rules: Seq<T>,
    board: Seq<CellView>,
    start: spec_fn(Seq<CellView>) -> bool,
    kept: spec_fn(Seq<CellView>) -> bool,
    k: nat,
)
    requires
        start(board),
        1 <= k <= rules.len(),
        forall|b: Seq<CellView>| start(b) ==> kept(#[trigger] rules[0].outcome(b)),
        forall|i: int, b: Seq<CellView>|
            0 <= i < rules.len() && kept(b) ==> kept(#[trigger] rules[i].outcome(b)),
    ensures
        kept(pass_upto(rules, board, k)),
    decreases k,
{
    if k > 1 {
        lemma_pass_keeps(rules, board, start, kept, (k - 1) as nat);
    } else {
        assert(pass_upto(rules, board, 0) == board);
    }
}

/// What the first strategy establishes and every strategy keeps holds of
/// the board that the solver leaves.
pub proof fn lemma_solve_keeps<T: Strategy>(
    rules: Seq<T>,
    board: Seq<CellView>,
    start: spec_fn(Seq<CellView>) -> bool,
    kept: spec_fn(Seq<CellView>) -> bool,
)
    requires
        start(board),
        rules.len() >= 1,
        forall|b: Seq<CellView>| start(b) ==> kept(#[trigger] rules[0].outcome(b)),
        forall|i: int, b: Seq<CellView>|
            0 <= i < rules.len() && kept(b) ==> kept(#[trigger] rules[i].outcome(b)),
    ensures
        kept(solve_outcome(rules, board)),
    decreases unsolved_count(board),
{
    let next = pass(rules, board);
    lemma_pass_keeps(rules, board, start, kept, rules.len());
    if !stops(board, next) {
        lemma_solve_keeps(rules, next, kept, kept);
    }
}

/// Soundness and uniqueness of solving with the two rules of this library,
/// the striking rule first: whatever solution is possible on the board
/// stays possible, no cell is solved against it, and no row, column or
/// block comes to hold a value twice. A board that ends fully solved holds
/// that solution.
pub proof fn lemma_solve_sound<T: Strategy>(rules: Seq<T>, board: Seq<CellView>, sol: Seq<u8>)
    requires
        board.len() == 81,
        is_solution(sol),
        consistent(board, sol),
        rules.len() >= 1,
        strikes(rules, 0),
        forall|i: int| 0 <= i < rules.len() ==> #[trigger] strikes(rules, i) || places(rules, i),
    ensures
        consistent(solve_outcome(rules, board), sol),
        groups_distinct(solve_outcome(rules, board)),
        fully_solved(solve_outcome(rules, board)) ==> forall|i: int|
            0 <= i < 81 ==> (#[trigger] solve_outcome(rules, board)[i]).value == Some(sol[i]),
{
    let start = |b: Seq<CellView>| b.len() == 81 && consistent(b, sol);
    let kept = |b: Seq<CellView>| b.len() == 81 && consistent(b, sol) && rows_pruned(b);
    assert forall|b: Seq<CellView>| start(b) implies kept(#[trigger] rules[0].outcome(b)) by {
        assert(rules[0].outcome(b) == strike_to_fixpoint(b));
        lemma_strike_to_fixpoint(b);
        lemma_strike_to_fixpoint_sound(b);
        lemma_strike_to_fixpoint_pruned(b);
    }
    assert forall|i: int, b: Seq<CellView>| 0 <= i < rules.len() && kept(b) implies kept(
        #[trigger] rules[i].outcome(b),
    ) by {
        if strikes(rules, i) {
            assert(rules[i].outcome(b) == strike_to_fixpoint(b));
            lemma_strike_to_fixpoint(b);
            lemma_strike_to_fixpoint_sound(b);
            lemma_strike_to_fixpoint_pruned(b);
        } else {
            assert(rules[i].outcome(b) == place_to_fixpoint(b));
            lemma_place_to_fixpoint(b);
            lemma_place_to_fixpoint_sound(b);
        }
    }
    lemma_solve_keeps(rules, board, start, kept);
    let out = solve_outcome(rules, board);
    lemma_consistent_is_distinct(out, sol);
    assert forall|i: int| 0 <= i < 81 && fully_solved(out) implies (#[trigger] out[i]).value
        == Some(sol[i]) by {
        assert(out[i].is_solved());
    }
}

/// Soundness of solving with the two rules in any order on a board whose
/// rows are pruned: a possible solution stays possible and no group comes
/// to hold a value twice.
pub proof fn lemma_solve_sound_pruned<T: Strategy>(
    rules: Seq<T>,
    board: Seq<CellView>,
    sol: Seq<u8>,
)
    requires
        board.len() == 81,
        is_solution(sol),
        consistent(board, sol),
        rows_pruned(board),
        rules.len() >= 1,
        forall|i: int| 0 <= i < rules.len() ==> #[trigger] strikes(rules, i) || places(rules, i),
    ensures
        consistent(solve_outcome(rules, board), sol),
        groups_distinct(solve_outcome(rules, board)),
        rows_pruned(solve_outcome(rules, board)),
{
    let kept = |b: Seq<CellView>| b.len() == 81 && consistent(b, sol) && rows_pruned(b);
    assert forall|i: int, b: Seq<CellView>| 0 <= i < rules.len() && kept(b) implies kept(
        #[trigger] rules[i].outcome(b),
    ) by {
        if strikes(rules, i) {
            assert(rules[i].outcome(b) == strike_to_fixpoint(b));
            lemma_strike_to_fixpoint(b);
            lemma_strike_to_fixpoint_sound(b);
            lemma_strike_to_fixpoint_pruned(b);
        } else {
            assert(rules[i].outcome(b) == place_to_fixpoint(b));
            lemma_place_to_fixpoint(b);
            lemma_place_to_fixpoint_sound(b);
        }
    }
    lemma_solve_keeps(rules, board, kept, kept);
    lemma_consistent_is_distinct(solve_outcome(rules, board), sol);
}

/// Both rules of this library, the striking rule first.
pub open spec fn both_rules() -> Seq<Rule> {
    seq![Rule::LastPossibleNumber, Rule::ExcludedFromSiblingsInRow]
}

/// With both rules, the striking rule first, the solver stops at a fixed
/// point: one more pass over the board that it leaves changes nothing, so a
/// stall loses no progress that the rules could make.
pub proof fn lemma_both_rules_settle(board: Seq<CellView>)
    requires
        board.len() == 81,
    ensures
        pass(both_rules(), solve_outcome(both_rules(), board)) == solve_outcome(
            both_rules(),
            board,
        ),
    decreases unsolved_count(board),
{
    let rules = both_rules();
    let struck = strike_to_fixpoint(board);
    let next = pass(rules, board);
    lemma_strike_to_fixpoint(board);
    lemma_place_to_fixpoint(struck);
    assert(pass_upto(rules, board, 0) == board);
    assert(pass_upto(rules, board, 1) == struck);
    assert(next == if fully_solved(struck) {
        struck
    } else {
        place_to_fixpoint(struck)
    });
    if !stops(board, next) {
        lemma_both_rules_settle(next);
    } else {
        lemma_strike_to_fixpoint(next);
        assert(pass_upto(rules, next, 0) == next);
        assert(pass_upto(rules, next, 1) == strike_to_fixpoint(next));
        if fully_solved(next) {
            lemma_advances_solved(next, strike_to_fixpoint(next));
        } else {
            lemma_place_to_fixpoint_quiet(struck);
            lemma_strike_to_fixpoint_settled(board);
        }
    }
}

/// Solves `sudoku` as far as both rules of this library carry, the striking
/// rule first in every pass. Whatever solution is possible on the grid
/// stays possible: no candidate that it needs is struck and no cell is
/// solved against it, so with such a solution no row, column or block comes
/// to hold a value twice, and a grid that ends solved holds the solution.
pub fn solve_puzzle(sudoku: Sudoku9x9) -> (solved: (Sudoku9x9, SolveReport))
    requires
        sudoku@.wf(),
    ensures
        solved.0@ == sudoku@.with_cells(solve_outcome(both_rules(), sudoku@.cells)),
        solved.0@.wf(),
        advances(sudoku@.cells, solved.0@.cells),
        solved.1.solved == fully_solved(solved.0@.cells),
        solved.1.unsolved == unsolved_count(solved.0@.cells),
        solved.1.passes == solve_passes(both_rules(), sudoku@.cells),
        1 <= solved.1.passes <= 81,
        forall|sol: Seq<u8>|
            is_solution(sol) && consistent(sudoku@.cells, sol) ==> #[trigger] consistent(
                solved.0@.cells,
                sol,
            ),
        (exists|sol: Seq<u8>| is_solution(sol) && consistent(sudoku@.cells, sol))
            ==> groups_distinct(solved.0@.cells),
        forall|sol: Seq<u8>, i: int|
            is_solution(sol) && consistent(sudoku@.cells, sol) && solved.1.solved && 0 <= i < 81
                ==> (#[trigger] solved.0@.cells[i]).value == Some(#[trigger] sol[i]),
        pass(both_rules(), solved.0@.cells) == solved.0@.cells,
{
    let mut solver: Solver<Rule> = Solver::new(sudoku);
    solver.add_strategy(Rule::LastPossibleNumber);
    solver.add_strategy(Rule::ExcludedFromSiblingsInRow);
    let ghost rules = solver.rules();
    assert(rules =~= both_rules());
    let report = solver.solve();
    let grid = solver.into_sudoku();
    proof {
        lemma_both_rules_settle(sudoku@.cells);
        assert(strikes(rules, 0));
        assert(places(rules, 1));
        assert forall|sol: Seq<u8>|
            is_solution(sol) && consistent(sudoku@.cells, sol) implies #[trigger] consistent(
            grid@.cells,
            sol,
        ) by {
            lemma_solve_sound(rules, sudoku@.cells, sol);
        }
        if exists|sol: Seq<u8>| is_solution(sol) && consistent(sudoku@.cells, sol) {
            let sol = choose|sol: Seq<u8>| is_solution(sol) && consistent(sudoku@.cells, sol);
            lemma_solve_sound(rules, sudoku@.cells, sol);
        }
        assert forall|sol: Seq<u8>, i: int|
            is_solution(sol) && consistent(sudoku@.cells, sol) && report.solved && 0 <= i
                < 81 implies (#[trigger] grid@.cells[i]).value == Some(#[trigger] sol[i]) by {
            lemma_solve_sound(rules, sudoku@.cells, sol);
        }
    }
    (grid, report)
}

} // verus!
