use crate::helpers::members_within;
use crate::layout::{group_members, lemma_group_member, lemma_member_is_held, row_members};
use crate::objects::cell::{list_contains, CellView};
use crate::objects::sudoku::{row_line, Sudoku9x9};
use crate::rules::{
    advances, cell_advances, cells_wf, clear_of, consistent, group_pruned, groups_distinct,
    is_solution, lemma_advances_refl, lemma_advances_trans, lemma_consistent_is_distinct,
    lemma_solution_distinct, lemma_solution_has_digit, lemma_unsolved_update, rows_pruned,
    unsolved_count,
};
use crate::traits::{HasCells, HasRows, Strategy};
use vstd::prelude::*;

verus! {

/// The rule that, row by row and digit by digit, gives a digit to the only
/// unsolved cell of the row that still has it as candidate.
#[derive(Debug)]
pub struct ExcludedFromSiblingsInRow;

/// The positions among `members` of the unsolved cells that still have
/// `digit` as candidate, in the members' order.
pub open spec fn takers_among(members: Seq<usize>, board: Seq<CellView>, digit: u8) -> Seq<usize> {
    members.filter(
        |i: usize| !board[i as int].is_solved() && board[i as int].candidates.contains(digit),
    )
}

/// The unsolved cells of row `r` that still have `digit` as candidate.
pub open spec fn takers(board: Seq<CellView>, r: int, digit: u8) -> Seq<usize> {
    takers_among(row_members(r), board, digit)
}

/// The board after the rule has looked at `digit` in row `r`: a single taker
/// gets the digit.
pub open spec fn place_step(board: Seq<CellView>, r: int, digit: u8) -> Seq<CellView> {
    let found = takers(board, r, digit);
    if found.len() == 1 {
        board.update(found[0] as int, board[found[0] as int].assigned(Some(digit)))
    } else {
        board
    }
}

/// The board after the rule has looked at the digits `1..=n` in row `r`, in
/// order.
pub open spec fn place_digits(board: Seq<CellView>, r: int, n: nat) -> Seq<CellView>
    decreases n,
{
    if n == 0 {
        board
    } else {
        place_step(place_digits(board, r, (n - 1) as nat), r, n as u8)
    }
}

/// The board after the rule has looked at every digit in the rows `0..rows`,
/// in order.
pub open spec fn place_rows(board: Seq<CellView>, rows: nat) -> Seq<CellView>
    decreases rows,
{
    if rows == 0 {
        board
    } else {
        place_digits(place_rows(board, (rows - 1) as nat), rows - 1, 9)
    }
}

/// The board after passes over all rows, repeated until one of them solves
/// no cell.
pub open spec fn place_to_fixpoint(board: Seq<CellView>) -> Seq<CellView>
    decreases unsolved_count(board),
{
    let next = place_rows(board, 9);
    if unsolved_count(next) < unsolved_count(board) {
        place_to_fixpoint(next)
    } else {
        next
    }
}

/// Every taker is an unsolved cell of the row that has the digit as
/// candidate.
pub proof fn lemma_taker(board: Seq<CellView>, r: int, digit: u8, j: int)
    requires
        0 <= r < 9,
        0 <= j < takers(board, r, digit).len(),
    ensures
        takers(board, r, digit)[j] < 81,
        row_members(r).contains(takers(board, r, digit)[j]),
        !board[takers(board, r, digit)[j] as int].is_solved(),
        board[takers(board, r, digit)[j] as int].candidates.contains(digit),
{
    let pred = |i: usize| !board[i as int].is_solved()
        && board[i as int].candidates.contains(digit);
    let members = row_members(r);
    let found = members.filter(pred);
    members.lemma_filter_pred(pred, j);
    assert(found.contains(found[j]));
    members.lemma_filter_contains_rev(pred, found[j]);
    let k = choose|k: int| 0 <= k < members.len() && members[k] == found[j];
    lemma_group_member(r, k);
}

/// One look at a digit in a row keeps solved cells, keeps well-formed cells
/// well formed, and solves a cell exactly when the digit has a single
/// taker.
pub proof fn lemma_place_step(board: Seq<CellView>, r: int, digit: u8)
    requires
        board.len() == 81,
        0 <= r < 9,
    ensures
        advances(board, place_step(board, r, digit)),
        cells_wf(board) ==> cells_wf(place_step(board, r, digit)),
        unsolved_count(place_step(board, r, digit)) + (if takers(board, r, digit).len() == 1 {
            1nat
        } else {
            0nat
        }) == unsolved_count(board),
{
    let found = takers(board, r, digit);
    let after = place_step(board, r, digit);
    if found.len() == 1 {
        lemma_taker(board, r, digit, 0);
        let i = found[0] as int;
        let cell = board[i].assigned(Some(digit));
        assert(cell.candidates =~= seq![digit]);
        assert(cell.candidates[0] == digit);
        assert forall|d: u8| cell.candidates.contains(d) implies
            board[i].candidates.contains(d) by {
            let q = choose|q: int| 0 <= q < cell.candidates.len() && cell.candidates[q] == d;
            assert(d == digit);
        }
        assert(board[i].candidates.len() >= 1);
        assert(cell_advances(board[i], cell));
        assert forall|j: int| 0 <= j < board.len() implies cell_advances(
            #[trigger] board[j],
            after[j],
        ) by {}
        if cells_wf(board) {
            assert forall|j: int| 0 <= j < after.len() implies (#[trigger] after[j]).wf() by {
                if j != i {
                    assert(board[j].wf());
                }
            }
        }
        lemma_unsolved_update(board, i, cell, board.len() as int);
    }
}

/// Looking at some digits of a row keeps solved cells and well-formed
/// cells, and leaves no more cells unsolved than it found.
pub proof fn lemma_place_digits(board: Seq<CellView>, r: int, n: nat)
    requires
        board.len() == 81,
        0 <= r < 9,
    ensures
        advances(board, place_digits(board, r, n)),
        cells_wf(board) ==> cells_wf(place_digits(board, r, n)),
        unsolved_count(place_digits(board, r, n)) <= unsolved_count(board),
    decreases n,
{
    if n > 0 {
        let before = place_digits(board, r, (n - 1) as nat);
        lemma_place_digits(board, r, (n - 1) as nat);
        lemma_place_step(before, r, n as u8);
        lemma_advances_trans(board, before, place_step(before, r, n as u8));
    }
}

/// Looking at some rows keeps solved cells and well-formed cells, and
/// leaves no more cells unsolved than it found.
pub proof fn lemma_place_rows(board: Seq<CellView>, rows: nat)
    requires
        board.len() == 81,
        rows <= 9,
    ensures
        advances(board, place_rows(board, rows)),
        cells_wf(board) ==> cells_wf(place_rows(board, rows)),
        unsolved_count(place_rows(board, rows)) <= unsolved_count(board),
    decreases rows,
{
    if rows > 0 {
        let before = place_rows(board, (rows - 1) as nat);
        lemma_place_rows(board, (rows - 1) as nat);
        lemma_place_digits(before, rows - 1, 9);
        lemma_advances_trans(board, before, place_digits(before, rows - 1, 9));
    }
}

/// Monotonicity of the rule: what it leaves has the solved cells it found,
/// unchanged, no new candidate anywhere, and well-formed cells if it found
/// them so.
pub proof fn lemma_place_to_fixpoint(board: Seq<CellView>)
    requires
        board.len() == 81,
    ensures
        advances(board, place_to_fixpoint(board)),
        cells_wf(board) ==> cells_wf(place_to_fixpoint(board)),
        unsolved_count(place_to_fixpoint(board)) <= unsolved_count(board),
    decreases unsolved_count(board),
{
    let next = place_rows(board, 9);
    lemma_place_rows(board, 9);
    if unsolved_count(next) < unsolved_count(board) {
        lemma_place_to_fixpoint(next);
        lemma_advances_trans(board, next, place_to_fixpoint(next));
    }
}

/// The positions among `members` of the unsolved cells that still have
/// `digit` as candidate, in the members' order.
pub fn possible_cells(sudoku: &Sudoku9x9, members: &Vec<usize>, digit: u8) -> (found: Vec<usize>)
    requires
        members_within(members@, sudoku@.cells.len()),
    ensures
        found@ == takers_among(members@, sudoku@.cells, digit),
{
    let cells = sudoku.cells();
    let ghost board = sudoku@.cells;
    let ghost pred = |i: usize|
        !board[i as int].is_solved() && board[i as int].candidates.contains(digit);
    let mut found: Vec<usize> = Vec::new();
    let mut k: usize = 0;
    proof {
        reveal(Seq::filter);
        assert(members@.subrange(0, 0) =~= Seq::<usize>::empty());
    }
    while k < members.len()
        invariant
            k <= members.len(),
            members_within(members@, board.len()),
            board == sudoku@.cells,
            cells@ == sudoku.members(),
            pred == |i: usize|
                !board[i as int].is_solved() && board[i as int].candidates.contains(digit),
            found@ == members@.subrange(0, k as int).filter(pred),
        decreases members.len() - k,
    {
        let member = members[k];
        let cell = &cells[member];
        assert(board[member as int] == cell@);
        proof {
            reveal(Seq::filter);
            let next = members@.subrange(0, k + 1);
            assert(next.drop_last() =~= members@.subrange(0, k as int));
            assert(next.last() == member);
        }
        if !cell.is_solved() {
            let variants = cell.variants();
            if list_contains(&variants, digit) {
                found.push(member);
            }
        }
        k += 1;
    }
    assert(members@.subrange(0, k as int) =~= members@);
    found
}

impl Strategy for ExcludedFromSiblingsInRow {
    open spec fn outcome(&self, board: Seq<CellView>) -> Seq<CellView> {
        place_to_fixpoint(board)
    }

    /// Passes over the rows until a pass solves no cell. In each row, each
    /// digit from 1 to 9 in turn goes to the unsolved cell that has it as
    /// candidate, if there is exactly one. On a board whose rows are pruned
    /// the rows stay pruned and no solution that was possible is lost.
    fn run(&self, sudoku: &mut Sudoku9x9)
        ensures
            rows_pruned(old(sudoku)@.cells) ==> rows_pruned(final(sudoku)@.cells),
            rows_pruned(old(sudoku)@.cells) ==> forall|sol: Seq<u8>|
                is_solution(sol) && consistent(old(sudoku)@.cells, sol) ==> #[trigger] consistent(
                    final(sudoku)@.cells,
                    sol,
                ),
    {
        let ghost origin = sudoku@;
        let mut progress_made = true;
        proof {
            lemma_advances_refl(origin.cells);
        }
        while progress_made
            invariant
                origin == old(sudoku)@,
                origin.wf(),
                sudoku@.wf(),
                sudoku@ == origin.with_cells(sudoku@.cells),
                advances(origin.cells, sudoku@.cells),
                progress_made
                    ==> place_to_fixpoint(sudoku@.cells) == place_to_fixpoint(origin.cells),
                !progress_made ==> sudoku@.cells == place_to_fixpoint(origin.cells),
            decreases
                unsolved_count(sudoku@.cells) + if progress_made {
                    1nat
                } else {
                    0nat
                },
        {
            let ghost start = sudoku@.cells;
            progress_made = false;
            let mut row: usize = 0;
            proof {
                lemma_advances_refl(start);
            }
            while row < 9
                invariant
                    row <= 9,
                    origin.wf(),
                    sudoku@.wf(),
                    sudoku@ == origin.with_cells(sudoku@.cells),
                    start.len() == 81,
                    sudoku@.cells == place_rows(start, row as nat),
                    advances(start, sudoku@.cells),
                    unsolved_count(sudoku@.cells) <= unsolved_count(start),
                    progress_made <==> unsolved_count(sudoku@.cells) < unsolved_count(start),
                decreases 9 - row,
            {
                let ghost row_start = sudoku@.cells;
                let mut number: u8 = 1;
                proof {
                    lemma_advances_refl(row_start);
                }
                while number <= 9
                    invariant
                        row < 9,
                        1 <= number <= 10,
                        origin.wf(),
                        sudoku@.wf(),
                        sudoku@ == origin.with_cells(sudoku@.cells),
                        start.len() == 81,
                        row_start.len() == 81,
                        row_start == place_rows(start, row as nat),
                        sudoku@.cells == place_digits(row_start, row as int, (number - 1) as nat),
                        advances(start, sudoku@.cells),
                        unsolved_count(sudoku@.cells) <= unsolved_count(start),
                        progress_made <==> unsolved_count(sudoku@.cells) < unsolved_count(start),
                    decreases 10 - number,
                {
                    let ghost before = sudoku@.cells;
                    proof {
                        lemma_place_step(before, row as int, number);
                        lemma_advances_trans(start, before, place_step(before, row as int, number));
                        assert(sudoku@.rows[row as int] == row_line(row as int));
                        assert(sudoku.row_list()[row as int]@ == sudoku@.rows[row as int]);
                        assert forall|k: int| 0 <= k < 9 implies #[trigger] row_members(
                            row as int,
                        )[k] < 81 by {
                            lemma_group_member(row as int, k);
                        }
                    }
                    let found = possible_cells(sudoku, sudoku.rows()[row].cells(), number);
                    if found.len() == 1 {
                        proof {
                            lemma_taker(
                                before,
                                row as int,
                                number,
                                0,
                            );
                        }
                        sudoku.set_cell_value(found[0], Some(number));
                        progress_made = true;
                    }
                    number += 1;
                }
                row += 1;
            }
            proof {
                if progress_made {
                    assert(place_to_fixpoint(start) == place_to_fixpoint(sudoku@.cells));
                } else {
                    assert(place_to_fixpoint(start) == sudoku@.cells);
                }
                lemma_advances_trans(origin.cells, start, sudoku@.cells);
            }
        }
        proof {
            if rows_pruned(origin.cells) {
                lemma_place_to_fixpoint_sound(origin.cells);
            }
        }
    }
}


/// The takers of a digit are exactly the unsolved cells of the row that
/// have it as candidate.
pub proof fn lemma_takers_hold(board: Seq<CellView>, r: int, digit: u8, k: int)
    requires
        0 <= r < 9,
        0 <= k < 9,
        !board[row_members(r)[k] as int].is_solved(),
        board[row_members(r)[k] as int].candidates.contains(digit),
    ensures
        takers(board, r, digit).contains(row_members(r)[k]),
{
    let pred = |i: usize| !board[i as int].is_solved()
        && board[i as int].candidates.contains(digit);
    row_members(r).lemma_filter_contains(pred, k);
}

/// Soundness of one look, on a row that is pruned: a single taker of a
/// digit is where every solution that is still possible has the digit.
pub proof fn lemma_place_step_sound(board: Seq<CellView>, sol: Seq<u8>, r: int, digit: u8)
    requires
        board.len() == 81,
        0 <= r < 9,
        1 <= digit <= 9,
        is_solution(sol),
        consistent(board, sol),
        group_pruned(board, r),
    ensures
        consistent(place_step(board, r, digit), sol),
{
    let found = takers(board, r, digit);
    let after = place_step(board, r, digit);
    if found.len() == 1 {
        lemma_taker(board, r, digit, 0);
        let i = found[0] as int;
        let k = lemma_solution_has_digit(sol, r, digit);
        lemma_group_member(r, k);
        let p = row_members(r)[k] as int;
        assert(group_members(r) == row_members(r));
        assert(sol[p] == digit);
        assert(board[p].candidates.contains(digit));
        if board[p].is_solved() {
            assert(board[p].value == Some(digit));
            let j = choose|j: int| 0 <= j < 9 && row_members(r)[j] == found[0];
            assert(j != k);
            assert(clear_of(board, group_members(r)[j] as int, group_members(r)[k] as int));
            assert(false);
        }
        lemma_takers_hold(board, r, digit, k);
        let q = choose|q: int| 0 <= q < found.len() && found[q] == row_members(r)[k];
        assert(q == 0);
        assert(p == i);
        let cell = board[i].assigned(Some(digit));
        assert(cell.candidates =~= seq![digit]);
        assert(cell.candidates[0] == digit);
        assert forall|j: int| 0 <= j < after.len() implies {
            &&& (#[trigger] after[j]).candidates.contains(sol[j])
            &&& after[j].value matches Some(v) ==> v == sol[j]
        } by {
            if j != i {
                assert(board[j].candidates.contains(sol[j]));
            }
        }
    }
}

/// One look keeps the rows pruned: the cell that gets a digit was the only
/// unsolved one of its row that had it as candidate.
pub proof fn lemma_place_step_pruned(board: Seq<CellView>, r: int, digit: u8)
    requires
        board.len() == 81,
        0 <= r < 9,
        rows_pruned(board),
    ensures
        rows_pruned(place_step(board, r, digit)),
{
    let found = takers(board, r, digit);
    let after = place_step(board, r, digit);
    if found.len() == 1 {
        lemma_taker(board, r, digit, 0);
        let i = found[0] as int;
        assert forall|h: int| 0 <= h < 9 implies #[trigger] group_pruned(after, h) by {
            assert(group_pruned(board, h));
            assert forall|j: int, k: int|
                #![trigger group_members(h)[j], group_members(h)[k]]
                0 <= j < 9 && 0 <= k < 9 && j != k implies clear_of(
                after,
                group_members(h)[j] as int,
                group_members(h)[k] as int,
            ) by {
                lemma_group_member(h, j);
                lemma_group_member(h, k);
                let a = group_members(h)[j] as int;
                let b = group_members(h)[k] as int;
                assert(clear_of(board, a, b));
                if after[a].is_solved() {
                } else if b == i {
                    assert(a != i);
                    assert(after[a] == board[a]);
                    lemma_member_is_held(h, k, i);
                    let m = choose|m: int| 0 <= m < 9 && row_members(r)[m] == found[0];
                    lemma_group_member(r, m);
                    assert(h == r);
                    if board[a].candidates.contains(digit) {
                        assert(group_members(r) == row_members(r));
                        lemma_takers_hold(board, r, digit, j);
                        let q = choose|q: int| 0 <= q < found.len()
                            && found[q] == row_members(r)[j];
                        assert(false);
                    }
                } else {
                    assert(after[a] == board[a]);
                    assert(after[b] == board[b]);
                }
            }
        }
    }
}

/// Looking at some digits of a pruned row keeps the rows pruned and keeps
/// a possible solution possible.
pub proof fn lemma_place_digits_sound(board: Seq<CellView>, r: int, n: nat)
    requires
        board.len() == 81,
        0 <= r < 9,
        n <= 9,
        rows_pruned(board),
    ensures
        rows_pruned(place_digits(board, r, n)),
        forall|sol: Seq<u8>|
            is_solution(sol) && consistent(board, sol) ==> #[trigger] consistent(
                place_digits(board, r, n),
                sol,
            ),
    decreases n,
{
    if n > 0 {
        let before = place_digits(board, r, (n - 1) as nat);
        lemma_place_digits_sound(board, r, (n - 1) as nat);
        lemma_place_digits(board, r, (n - 1) as nat);
        lemma_place_step_pruned(before, r, n as u8);
        assert forall|sol: Seq<u8>| is_solution(sol) && consistent(board, sol) implies
            #[trigger] consistent(
            place_digits(board, r, n),
            sol,
        ) by {
            assert(consistent(before, sol));
            assert(group_pruned(before, r));
            lemma_place_step_sound(before, sol, r, n as u8);
        }
    }
}

/// Looking at some rows of a board with pruned rows keeps the rows pruned
/// and keeps a possible solution possible.
pub proof fn lemma_place_rows_sound(board: Seq<CellView>, rows: nat)
    requires
        board.len() == 81,
        rows <= 9,
        rows_pruned(board),
    ensures
        rows_pruned(place_rows(board, rows)),
        forall|sol: Seq<u8>|
            is_solution(sol) && consistent(board, sol) ==> #[trigger] consistent(
                place_rows(board, rows),
                sol,
            ),
    decreases rows,
{
    if rows > 0 {
        let before = place_rows(board, (rows - 1) as nat);
        lemma_place_rows_sound(board, (rows - 1) as nat);
        lemma_place_rows(board, (rows - 1) as nat);
        lemma_place_digits_sound(before, rows - 1, 9);
        assert forall|sol: Seq<u8>| is_solution(sol) && consistent(board, sol) implies
            #[trigger] consistent(
            place_rows(board, rows),
            sol,
        ) by {
            assert(consistent(before, sol));
        }
    }
}

/// Soundness of the rule on a board whose rows are pruned: it keeps them
/// pruned, it never solves a cell against a solution that was still
/// possible, and with such a solution no group holds a value twice
/// afterwards.
pub proof fn lemma_place_to_fixpoint_sound(board: Seq<CellView>)
    requires
        board.len() == 81,
        rows_pruned(board),
    ensures
        rows_pruned(place_to_fixpoint(board)),
        forall|sol: Seq<u8>|
            is_solution(sol) && consistent(board, sol) ==> #[trigger] consistent(
                place_to_fixpoint(board),
                sol,
            ),
        (exists|sol: Seq<u8>| is_solution(sol) && consistent(board, sol)) ==> groups_distinct(
            place_to_fixpoint(board),
        ),
    decreases unsolved_count(board),
{
    let next = place_rows(board, 9);
    lemma_place_rows_sound(board, 9);
    lemma_place_rows(board, 9);
    if unsolved_count(next) < unsolved_count(board) {
        lemma_place_to_fixpoint_sound(next);
        assert forall|sol: Seq<u8>| is_solution(sol) && consistent(board, sol) implies
            #[trigger] consistent(
            place_to_fixpoint(board),
            sol,
        ) by {
            assert(consistent(next, sol));
        }
    }
    if exists|sol: Seq<u8>| is_solution(sol) && consistent(board, sol) {
        let sol = choose|sol: Seq<u8>| is_solution(sol) && consistent(board, sol);
        assert(consistent(place_to_fixpoint(board), sol));
        lemma_consistent_is_distinct(place_to_fixpoint(board), sol);
    }
}


/// Looking at some digits of a row without solving a cell changes nothing,
/// and none of those digits has a single taker.
pub proof fn lemma_quiet_digits(board: Seq<CellView>, r: int, n: nat)
    requires
        board.len() == 81,
        0 <= r < 9,
        n <= 9,
        unsolved_count(place_digits(board, r, n)) >= unsolved_count(board),
    ensures
        place_digits(board, r, n) == board,
        forall|d: u8| 1 <= d <= n ==> (#[trigger] takers(board, r, d)).len() != 1,
    decreases n,
{
    if n > 0 {
        let before = place_digits(board, r, (n - 1) as nat);
        lemma_place_digits(board, r, (n - 1) as nat);
        lemma_place_step(before, r, n as u8);
        lemma_quiet_digits(board, r, (n - 1) as nat);
        assert forall|d: u8| 1 <= d <= n implies (#[trigger] takers(board, r, d)).len() != 1 by {
            if d == n {
                assert(d == n as u8);
            }
        }
    }
}

/// Looking at some rows without solving a cell changes nothing, and in
/// none of those rows a digit has a single taker.
pub proof fn lemma_quiet_rows(board: Seq<CellView>, rows: nat)
    requires
        board.len() == 81,
        rows <= 9,
        unsolved_count(place_rows(board, rows)) >= unsolved_count(board),
    ensures
        place_rows(board, rows) == board,
        forall|r: int, d: u8|
            0 <= r < rows && 1 <= d <= 9 ==> (#[trigger] takers(board, r, d)).len() != 1,
    decreases rows,
{
    if rows > 0 {
        let before = place_rows(board, (rows - 1) as nat);
        lemma_place_rows(board, (rows - 1) as nat);
        lemma_place_digits(before, rows - 1, 9);
        lemma_quiet_rows(board, (rows - 1) as nat);
        lemma_quiet_digits(before, rows - 1, 9);
    }
}

/// What the rule leaves is a fixed point: no digit has a single taker in
/// any row, so another pass changes nothing.
pub proof fn lemma_place_to_fixpoint_settled(board: Seq<CellView>)
    requires
        board.len() == 81,
    ensures
        forall|r: int, d: u8|
            0 <= r < 9 && 1 <= d <= 9 ==> (#[trigger] takers(place_to_fixpoint(board), r, d)).len()
                != 1,
        place_rows(place_to_fixpoint(board), 9) == place_to_fixpoint(board),
        place_to_fixpoint(place_to_fixpoint(board)) == place_to_fixpoint(board),
    decreases unsolved_count(board),
{
    let next = place_rows(board, 9);
    lemma_place_rows(board, 9);
    if unsolved_count(next) < unsolved_count(board) {
        lemma_place_to_fixpoint_settled(next);
    } else {
        lemma_quiet_rows(board, 9);
    }
}

/// Where the rule solves no cell it changes nothing.
pub proof fn lemma_place_to_fixpoint_quiet(board: Seq<CellView>)
    requires
        board.len() == 81,
        unsolved_count(place_to_fixpoint(board)) >= unsolved_count(board),
    ensures
        place_to_fixpoint(board) == board,
{
    let next = place_rows(board, 9);
    lemma_place_rows(board, 9);
    if unsolved_count(next) < unsolved_count(board) {
        lemma_place_to_fixpoint(next);
    } else {
        lemma_quiet_rows(board, 9);
    }
}

/// One look leaves every cell alone that is unsolved afterwards.
pub proof fn lemma_place_step_untouched(board: Seq<CellView>, r: int, digit: u8)
    requires
        board.len() == 81,
        0 <= r < 9,
    ensures
        forall|i: int|
            0 <= i < 81 && !(#[trigger] place_step(board, r, digit)[i]).is_solved() ==> place_step(
                board,
                r,
                digit,
            )[i] == board[i],
{
    if takers(board, r, digit).len() == 1 {
        lemma_taker(board, r, digit, 0);
    }
}

/// Looking at some digits of a row leaves every cell alone that is unsolved
/// afterwards.
pub proof fn lemma_place_digits_untouched(board: Seq<CellView>, r: int, n: nat)
    requires
        board.len() == 81,
        0 <= r < 9,
    ensures
        forall|i: int|
            0 <= i < 81 && !(#[trigger] place_digits(board, r, n)[i]).is_solved() ==> place_digits(
                board,
                r,
                n,
            )[i] == board[i],
    decreases n,
{
    if n > 0 {
        let before = place_digits(board, r, (n - 1) as nat);
        let after = place_digits(board, r, n);
        lemma_place_digits_untouched(board, r, (n - 1) as nat);
        lemma_place_digits(board, r, (n - 1) as nat);
        lemma_place_step(before, r, n as u8);
        lemma_place_step_untouched(before, r, n as u8);
        assert forall|i: int| 0 <= i < 81 && !(#[trigger] after[i]).is_solved() implies after[i]
            == board[i] by {
            assert(cell_advances(before[i], after[i]));
        }
    }
}

/// Looking at some rows leaves every cell alone that is unsolved
/// afterwards.
pub proof fn lemma_place_rows_untouched(board: Seq<CellView>, rows: nat)
    requires
        board.len() == 81,
        rows <= 9,
    ensures
        forall|i: int|
            0 <= i < 81 && !(#[trigger] place_rows(board, rows)[i]).is_solved() ==> place_rows(
                board,
                rows,
            )[i] == board[i],
    decreases rows,
{
    if rows > 0 {
        let before = place_rows(board, (rows - 1) as nat);
        let after = place_rows(board, rows);
        lemma_place_rows_untouched(board, (rows - 1) as nat);
        lemma_place_rows(board, (rows - 1) as nat);
        lemma_place_digits(before, rows - 1, 9);
        lemma_place_digits_untouched(before, rows - 1, 9);
        assert forall|i: int| 0 <= i < 81 && !(#[trigger] after[i]).is_solved() implies after[i]
            == board[i] by {
            assert(cell_advances(before[i], after[i]));
        }
    }
}

/// The rule leaves every cell alone that is unsolved afterwards: it changes
/// a cell only by solving it.
pub proof fn lemma_place_to_fixpoint_untouched(board: Seq<CellView>)
    requires
        board.len() == 81,
    ensures
        forall|i: int|
            0 <= i < 81 && !(#[trigger] place_to_fixpoint(board)[i]).is_solved()
                ==> place_to_fixpoint(board)[i] == board[i],
    decreases unsolved_count(board),
{
    let next = place_rows(board, 9);
    let out = place_to_fixpoint(board);
    lemma_place_rows(board, 9);
    lemma_place_rows_untouched(board, 9);
    if unsolved_count(next) < unsolved_count(board) {
        lemma_place_to_fixpoint_untouched(next);
        lemma_place_to_fixpoint(next);
        assert forall|i: int| 0 <= i < 81 && !(#[trigger] out[i]).is_solved() implies out[i]
            == board[i] by {
            assert(cell_advances(next[i], out[i]));
        }
    }
}

/// Two tests that agree on every entry of a list pick the same entries.
pub proof fn lemma_filter_agrees(
    list: Seq<usize>,
    first: spec_fn(usize) -> bool,
    second: spec_fn(usize) -> bool,
)
    requires
        forall|k: int| 0 <= k < list.len() ==> first(#[trigger] list[k]) == second(list[k]),
    ensures
        list.filter(first) == list.filter(second),
    decreases list.len(),
{
    reveal(Seq::filter);
    if list.len() > 0 {
        let init = list.drop_last();
        assert forall|k: int| 0 <= k < init.len() implies first(#[trigger] init[k]) == second(
            init[k],
        ) by {
            assert(init[k] == list[k]);
        }
        lemma_filter_agrees(init, first, second);
        assert(first(list[list.len() - 1]) == second(list[list.len() - 1]));
    }
}

/// The only taker gets the digit: on a board with well-formed cells and
/// pruned rows on which some solution is possible, the one unsolved cell of
/// a row that has a digit as candidate holds that digit, and nothing else,
/// once the rule has run, and no other cell of the row holds it.
pub proof fn lemma_only_taker_gets_digit(
    board: Seq<CellView>,
    sol: Seq<u8>,
    r: int,
    digit: u8,
    c: int,
)
    requires
        board.len() == 81,
        cells_wf(board),
        rows_pruned(board),
        is_solution(sol),
        consistent(board, sol),
        0 <= r < 9,
        1 <= digit <= 9,
        takers(board, r, digit) == seq![c as usize],
        0 <= c < 81,
    ensures
        place_to_fixpoint(board)[c].value == Some(digit),
        place_to_fixpoint(board)[c].candidates == seq![digit],
        forall|k: int|
            0 <= k < 9 && row_members(r)[k] != c ==> (#[trigger] place_to_fixpoint(
                board,
            )[row_members(r)[k] as int]).value != Some(digit),
{
    let out = place_to_fixpoint(board);
    let found = takers(board, r, digit);
    assert(found.len() == 1 && found[0] == c as usize);
    lemma_taker(board, r, digit, 0);
    lemma_place_to_fixpoint(board);
    lemma_place_to_fixpoint_sound(board);
    lemma_place_to_fixpoint_untouched(board);
    lemma_place_to_fixpoint_settled(board);
    assert(group_members(r) == row_members(r));
    assert(group_pruned(board, r));
    let k = lemma_solution_has_digit(sol, r, digit);
    lemma_group_member(r, k);
    let p = row_members(r)[k] as int;
    assert(board[p].candidates.contains(sol[p]));
    let j = choose|j: int| 0 <= j < 9 && row_members(r)[j] == found[0];
    if board[p].is_solved() {
        assert(j != k);
        assert(clear_of(board, group_members(r)[j] as int, group_members(r)[k] as int));
        assert(false);
    }
    lemma_takers_hold(board, r, digit, k);
    let q = choose|q: int| 0 <= q < found.len() && found[q] == row_members(r)[k];
    assert(p == c);
    assert(consistent(out, sol));
    assert(out[c].candidates.contains(sol[c]));
    if !out[c].is_solved() {
        let then = |i: usize|
            !board[i as int].is_solved() && board[i as int].candidates.contains(digit);
        let now = |i: usize| !out[i as int].is_solved() && out[i as int].candidates.contains(digit);
        assert forall|m: int| 0 <= m < 9 implies then(#[trigger] row_members(r)[m]) == now(
            row_members(r)[m],
        ) by {
            lemma_group_member(r, m);
            let i = row_members(r)[m] as int;
            assert(cell_advances(board[i], out[i]));
            if out[i].is_solved() && then(row_members(r)[m]) {
                lemma_takers_hold(board, r, digit, m);
                let w = choose|w: int| 0 <= w < found.len() && found[w] == row_members(r)[m];
                assert(i == c);
            }
        }
        lemma_filter_agrees(row_members(r), then, now);
        assert(takers(out, r, digit) == found);
        assert(false);
    }
    assert(out[c].wf());
    assert forall|m: int| 0 <= m < 9 && row_members(r)[m] != c implies (#[trigger] out[row_members(
        r,
    )[m] as int]).value != Some(digit) by {
        lemma_group_member(r, m);
        let i = row_members(r)[m] as int;
        if out[i].value == Some(digit) {
            assert(sol[i] == digit);
            assert(m != k);
            lemma_solution_distinct(sol, r, m, k);
        }
    }
}

} // verus!
