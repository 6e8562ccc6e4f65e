use crate::helpers::{has_duplicates, members_within};
use crate::layout::{
    area_members, area_of, column_members, column_of, group_members, lemma_group_member,
    lemma_group_place, place_in_group, row_members, row_of,
};
use crate::objects::cell::{
    lemma_without, lemma_without_no_duplicates, lemma_without_strangers, without, CellView,
};
use crate::objects::sudoku::{block_area, column_line, row_line, Sudoku9x9};
use crate::rules::{
    advances, cell_advances, cells_wf, clear_of, consistent, faithful, group_pruned, group_values,
    groups_distinct, is_digit, is_solution, lemma_advances_refl, lemma_advances_strict,
    lemma_advances_trans, lemma_peer_value, lemma_peer_value_source, lemma_peer_values_grow,
    lemma_solution_avoids_peers, lemma_unsolved_update, lemma_value_not_among_peers, pruned,
    rows_pruned, solved_peer_values, unsolved_count, values_in,
};
use crate::traits::{HasAreas, HasCells, HasColumns, HasRows, Strategy};
use std::collections::HashSet;
use vstd::prelude::*;

verus! {

broadcast use vstd::std_specs::hash::group_hash_axioms;

/// The rule that strikes from every unsolved cell the digits already solved
/// in its row, its column and its block, and solves the cell when one
/// candidate is left.
#[derive(Debug)]
pub struct LastPossibleNumberStrategy;

/// The board after the rule has looked at position `i`: an unsolved cell
/// loses the digits solved among its peers.
pub open spec fn strike_step(board: Seq<CellView>, i: int) -> Seq<CellView> {
    if board[i].is_solved() {
        board
    } else {
        board.update(i, board[i].excluded(solved_peer_values(board, i)))
    }
}

/// The board after the rule has looked at the positions `0..n`, in order.
pub open spec fn strike_sweep(board: Seq<CellView>, n: nat) -> Seq<CellView>
    decreases n,
{
    if n == 0 {
        board
    } else {
        strike_step(strike_sweep(board, (n - 1) as nat), n - 1)
    }
}

/// The board after sweeps over all positions, repeated until one of them
/// solves no cell.
pub open spec fn strike_to_fixpoint(board: Seq<CellView>) -> Seq<CellView>
    decreases unsolved_count(board),
{
    let next = strike_sweep(board, 81);
    if unsolved_count(next) < unsolved_count(board) {
        strike_to_fixpoint(next)
    } else {
        next
    }
}

/// One look at a position keeps every other cell, keeps a solved cell,
/// keeps well-formed cells well formed, and solves at most the cell it
/// looks at.
pub proof fn lemma_strike_step(board: Seq<CellView>, i: int)
    requires
        0 <= i < board.len(),
    ensures
        advances(board, strike_step(board, i)),
        cells_wf(board) ==> cells_wf(strike_step(board, i)),
        unsolved_count(strike_step(board, i)) + (if !board[i].is_solved() && strike_step(
            board,
            i,
        )[i].is_solved() {
            1nat
        } else {
            0nat
        }) == unsolved_count(board),
{
    let after = strike_step(board, i);
    if !board[i].is_solved() {
        let removed = solved_peer_values(board, i);
        lemma_without(board[i].candidates, removed);
        let cell = board[i].excluded(removed);
        assert(cell_advances(board[i], cell));
        assert forall|j: int| 0 <= j < board.len() implies cell_advances(
            #[trigger] board[j],
            after[j],
        ) by {}
        if cell.candidates.len() == 1 {
            assert(cell.candidates =~= seq![cell.candidates[0]]);
        }
        if cells_wf(board) {
            assert forall|j: int| 0 <= j < after.len() implies (#[trigger] after[j]).wf() by {
                if j != i {
                    assert(board[j].wf());
                }
            }
        }
        lemma_unsolved_update(board, i, cell, board.len() as int);
    }
}

/// A sweep keeps solved cells, keeps well-formed cells well formed, and
/// leaves no more cells unsolved than it found.
pub proof fn lemma_strike_sweep(board: Seq<CellView>, n: nat)
    requires
        n <= board.len(),
    ensures
        advances(board, strike_sweep(board, n)),
        cells_wf(board) ==> cells_wf(strike_sweep(board, n)),
        unsolved_count(strike_sweep(board, n)) <= unsolved_count(board),
    decreases n,
{
    if n > 0 {
        let before = strike_sweep(board, (n - 1) as nat);
        lemma_strike_sweep(board, (n - 1) as nat);
        lemma_strike_step(before, n - 1);
        lemma_advances_trans(board, before, strike_step(before, n - 1));
    }
}

/// Monotonicity of the rule: what it leaves has the solved cells it found,
/// unchanged, no new candidate anywhere, and well-formed cells if it found
/// them so.
pub proof fn lemma_strike_to_fixpoint(board: Seq<CellView>)
    requires
        board.len() == 81,
    ensures
        advances(board, strike_to_fixpoint(board)),
        cells_wf(board) ==> cells_wf(strike_to_fixpoint(board)),
        unsolved_count(strike_to_fixpoint(board)) <= unsolved_count(board),
    decreases unsolved_count(board),
{
    let next = strike_sweep(board, 81);
    lemma_strike_sweep(board, 81);
    if unsolved_count(next) < unsolved_count(board) {
        lemma_strike_to_fixpoint(next);
        lemma_advances_trans(board, next, strike_to_fixpoint(next));
    }
}

/// Adds to `items` the solved values of the cells that `members` points at,
/// the cell at `cell_index` left out.
pub fn collect_values(
    sudoku: &Sudoku9x9,
    members: &Vec<usize>,
    cell_index: usize,
    items: &mut HashSet<u8>,
)
    requires
        members_within(members@, sudoku@.cells.len()),
    ensures
        final(items)@ == old(items)@ + values_in(members@, sudoku@.cells, cell_index as int),
{
    let cells = sudoku.cells();
    let ghost board = sudoku@.cells;
    let ghost start = items@;
    let mut k: usize = 0;
    assert(items@ =~= start + values_in(members@.subrange(0, 0), board, cell_index as int));
    while k < members.len()
        invariant
            k <= members.len(),
            members_within(members@, board.len()),
            board == sudoku@.cells,
            cells@ == sudoku.members(),
            items@ == start + values_in(members@.subrange(0, k as int), board, cell_index as int),
        decreases members.len() - k,
    {
        let other = members[k];
        let ghost before = items@;
        let ghost prefix = members@.subrange(0, k as int);
        let ghost longer = members@.subrange(0, k + 1);
        assert(board[other as int] == cells@[other as int]@);
        if other != cell_index {
            if let Some(val) = cells[other].get_value() {
                items.insert(val);
            }
        }
        proof {
            let now = items@;
            let goal = start + values_in(longer, board, cell_index as int);
            assert forall|d: u8| now.contains(d) <==> goal.contains(d) by {
                if values_in(longer, board, cell_index as int).contains(d) {
                    let q = choose|q: int|
                        0 <= q < longer.len() && #[trigger] longer[q] != cell_index
                            && board[longer[q] as int].value == Some(d);
                    if q < k {
                        assert(prefix[q] == longer[q]);
                    }
                }
                if values_in(prefix, board, cell_index as int).contains(d) {
                    let q = choose|q: int|
                        0 <= q < prefix.len() && #[trigger] prefix[q] != cell_index
                            && board[prefix[q] as int].value == Some(d);
                    assert(longer[q] == prefix[q]);
                }
                if other != cell_index && board[other as int].value == Some(d) {
                    assert(longer[k as int] == other);
                }
            }
            assert(now =~= goal);
        }
        k += 1;
    }
    assert(members@.subrange(0, k as int) =~= members@);
}

/// The values already solved in the block, the row and the column of the
/// cell at `index`.
pub fn peer_values(sudoku: &Sudoku9x9, index: usize) -> (items: HashSet<u8>)
    requires
        sudoku@.framed(),
        index < 81,
    ensures
        items@ == solved_peer_values(sudoku@.cells, index as int),
{
    let mut items: HashSet<u8> = HashSet::new();
    let cell = &sudoku.cells()[index];
    assert(cell@ == sudoku@.cells[index as int]);
    proof {
        assert forall|g: int, k: int| 0 <= g < 27 && 0 <= k < 9 implies #[trigger] group_members(
            g,
        )[k] < 81 by {
            lemma_group_member(g, k);
        }
        let (r, c, a) = (row_of(index as int), column_of(index as int), area_of(index as int));
        assert(0 <= r < 9 && 0 <= c < 9 && 0 <= a < 9);
        assert(group_members(r) == row_members(r));
        assert(group_members(9 + c) == column_members(c));
        assert(group_members(18 + a) == area_members(a));
    }
    if let Some(area) = cell.area() {
        assert(sudoku@.areas[area as int] == block_area(area as int));
        assert(sudoku.area_list()[area as int]@ == sudoku@.areas[area as int]);
        collect_values(sudoku, sudoku.areas()[area].cells(), index, &mut items);
    }
    if let Some(row) = cell.row() {
        assert(sudoku@.rows[row as int] == row_line(row as int));
        assert(sudoku.row_list()[row as int]@ == sudoku@.rows[row as int]);
        collect_values(sudoku, sudoku.rows()[row].cells(), index, &mut items);
    }
    if let Some(col) = cell.column() {
        assert(sudoku@.columns[col as int] == column_line(col as int));
        assert(sudoku.column_list()[col as int]@ == sudoku@.columns[col as int]);
        collect_values(sudoku, sudoku.columns()[col].cells(), index, &mut items);
    }
    assert(items@ =~= solved_peer_values(sudoku@.cells, index as int));
    items
}

impl Strategy for LastPossibleNumberStrategy {
    open spec fn outcome(&self, board: Seq<CellView>) -> Seq<CellView> {
        strike_to_fixpoint(board)
    }

    /// Sweeps over the unsolved cells until a sweep solves none. Each cell
    /// loses the digits solved in its row, its column and its block, and is
    /// solved when one candidate is left. No group comes to hold a value
    /// twice, no solution that was possible is lost, and the board that is
    /// left is pruned.
    fn run(&self, sudoku: &mut Sudoku9x9)
        ensures
            groups_distinct(old(sudoku)@.cells) ==> groups_distinct(final(sudoku)@.cells),
            forall|sol: Seq<u8>|
                is_solution(sol) && consistent(old(sudoku)@.cells, sol) ==> #[trigger] consistent(
                    final(sudoku)@.cells,
                    sol,
                ),
            pruned(final(sudoku)@.cells),
            faithful(old(sudoku)@.cells) ==> faithful(final(sudoku)@.cells),
    {
        let ghost origin = sudoku@;
        let mut progress_made = true;
        proof {
            lemma_advances_refl(origin.cells);
        }
        while progress_made
            invariant
                origin == old(sudoku)@,
                origin.wf(),
                sudoku@.wf(),
                sudoku@ == origin.with_cells(sudoku@.cells),
                advances(origin.cells, sudoku@.cells),
                progress_made
                    ==> strike_to_fixpoint(sudoku@.cells) == strike_to_fixpoint(origin.cells),
                !progress_made ==> sudoku@.cells == strike_to_fixpoint(origin.cells),
            decreases
                unsolved_count(sudoku@.cells) + if progress_made {
                    1nat
                } else {
                    0nat
                },
        {
            let ghost start = sudoku@.cells;
            progress_made = false;
            let mut index: usize = 0;
            proof {
                lemma_advances_refl(start);
            }
            while index < 81
                invariant
                    index <= 81,
                    origin.wf(),
                    sudoku@.wf(),
                    sudoku@ == origin.with_cells(sudoku@.cells),
                    start.len() == 81,
                    sudoku@.cells == strike_sweep(start, index as nat),
                    advances(start, sudoku@.cells),
                    unsolved_count(sudoku@.cells) <= unsolved_count(start),
                    progress_made <==> unsolved_count(sudoku@.cells) < unsolved_count(start),
                decreases 81 - index,
            {
                let ghost before = sudoku@.cells;
                proof {
                    lemma_strike_step(before, index as int);
                    lemma_advances_trans(
                        start,
                        before,
                        strike_step(before, index as int),
                    );
                }
                assert(sudoku@.cells[index as int] == sudoku.members()[index as int]@);
                if !sudoku.cells()[index].is_solved() {
                    let items = peer_values(sudoku, index);
                    sudoku.exclude_cell_values(index, items);
                    assert(sudoku@.cells[index as int] == sudoku.members()[index as int]@);
                    if sudoku.cells()[index].is_solved() {
                        progress_made = true;
                    }
                }
                index += 1;
            }
            proof {
                if progress_made {
                    assert(strike_to_fixpoint(start) == strike_to_fixpoint(sudoku@.cells));
                } else {
                    assert(strike_to_fixpoint(start) == sudoku@.cells);
                }
                lemma_advances_trans(origin.cells, start, sudoku@.cells);
            }
        }
        proof {
            lemma_strike_to_fixpoint_sound(origin.cells);
            lemma_strike_to_fixpoint_pruned(origin.cells);
            if faithful(origin.cells) {
                lemma_strike_to_fixpoint_faithful(origin.cells);
            }
        }
    }
}


/// Soundness of one look: a solution that is still possible stays possible.
pub proof fn lemma_strike_step_sound(board: Seq<CellView>, sol: Seq<u8>, i: int)
    requires
        is_solution(sol),
        consistent(board, sol),
        0 <= i < 81,
    ensures
        consistent(strike_step(board, i), sol),
{
    let after = strike_step(board, i);
    if !board[i].is_solved() {
        let removed = solved_peer_values(board, i);
        lemma_solution_avoids_peers(board, sol, i);
        lemma_without(board[i].candidates, removed);
        let rest = without(board[i].candidates, removed);
        assert(board[i].candidates.contains(sol[i]));
        assert(rest.contains(sol[i]));
        if rest.len() == 1 {
            let q = choose|q: int| 0 <= q < rest.len() && rest[q] == sol[i];
            assert(rest[0] == sol[i]);
        }
        assert forall|j: int| 0 <= j < after.len() implies {
            &&& (#[trigger] after[j]).candidates.contains(sol[j])
            &&& after[j].value matches Some(v) ==> v == sol[j]
        } by {
            if j != i {
                assert(board[j].candidates.contains(sol[j]));
            }
        }
    }
}

/// Uniqueness under one look: a cell that gets solved takes a digit that
/// none of its peers holds, so no group holds a value twice afterwards.
pub proof fn lemma_strike_step_distinct(board: Seq<CellView>, i: int)
    requires
        board.len() == 81,
        groups_distinct(board),
        0 <= i < 81,
    ensures
        groups_distinct(strike_step(board, i)),
{
    let after = strike_step(board, i);
    if !board[i].is_solved() {
        let removed = solved_peer_values(board, i);
        lemma_without(board[i].candidates, removed);
        let rest = without(board[i].candidates, removed);
        assert forall|g: int| 0 <= g < 27 implies !has_duplicates(
            #[trigger] group_values(after, g),
        ) by {
            let values = group_values(after, g);
            let old_values = group_values(board, g);
            if has_duplicates(values) {
                let (j, k) = choose|j: int, k: int|
                    0 <= j < k < values.len() && values[j] is Some && #[trigger] values[j]
                        == #[trigger] values[k];
                lemma_group_member(g, j);
                lemma_group_member(g, k);
                let a = group_members(g)[j] as int;
                let b = group_members(g)[k] as int;
                assert(a != b);
                if a != i && b != i {
                    assert(old_values[j] == values[j]);
                    assert(old_values[k] == values[k]);
                    assert(has_duplicates(old_values));
                } else {
                    let other = if a == i {
                        k
                    } else {
                        j
                    };
                    let d = after[i].value->0;
                    assert(rest.len() == 1 && d == rest[0]);
                    assert(rest.contains(d));
                    assert(board[group_members(g)[other] as int].value == Some(d));
                    lemma_peer_value(board, i, g, other, d);
                }
            }
        }
    }
}

/// A sweep keeps a possible solution possible and keeps the groups free of
/// duplicates.
pub proof fn lemma_strike_sweep_sound(board: Seq<CellView>, n: nat)
    requires
        n <= 81,
        board.len() == 81,
    ensures
        groups_distinct(board) ==> groups_distinct(strike_sweep(board, n)),
        forall|sol: Seq<u8>|
            is_solution(sol) && consistent(board, sol) ==> #[trigger] consistent(
                strike_sweep(board, n),
                sol,
            ),
    decreases n,
{
    if n > 0 {
        let before = strike_sweep(board, (n - 1) as nat);
        lemma_strike_sweep_sound(board, (n - 1) as nat);
        lemma_strike_sweep(board, (n - 1) as nat);
        if groups_distinct(board) {
            lemma_strike_step_distinct(before, n - 1);
        }
        assert forall|sol: Seq<u8>| is_solution(sol) && consistent(board, sol) implies
            #[trigger] consistent(
            strike_sweep(board, n),
            sol,
        ) by {
            assert(consistent(before, sol));
            lemma_strike_step_sound(before, sol, n - 1);
        }
    }
}

/// Uniqueness and soundness of the rule: it never makes a group hold a
/// value twice, and it never strikes the digit of a solution that was
/// still possible, nor solves a cell against it.
pub proof fn lemma_strike_to_fixpoint_sound(board: Seq<CellView>)
    requires
        board.len() == 81,
    ensures
        groups_distinct(board) ==> groups_distinct(strike_to_fixpoint(board)),
        forall|sol: Seq<u8>|
            is_solution(sol) && consistent(board, sol) ==> #[trigger] consistent(
                strike_to_fixpoint(board),
                sol,
            ),
    decreases unsolved_count(board),
{
    let next = strike_sweep(board, 81);
    lemma_strike_sweep_sound(board, 81);
    lemma_strike_sweep(board, 81);
    if unsolved_count(next) < unsolved_count(board) {
        lemma_strike_to_fixpoint_sound(next);
        assert forall|sol: Seq<u8>| is_solution(sol) && consistent(board, sol) implies
            #[trigger] consistent(
            strike_to_fixpoint(board),
            sol,
        ) by {
            assert(consistent(next, sol));
        }
    }
}


/// A sweep over the positions `0..n` leaves the cells from `n` on as they
/// were.
pub proof fn lemma_strike_sweep_rest(board: Seq<CellView>, n: nat, i: int)
    requires
        n <= i < board.len(),
    ensures
        strike_sweep(board, n)[i] == board[i],
        strike_sweep(board, n).len() == board.len(),
    decreases n,
{
    if n > 0 {
        lemma_strike_sweep_rest(board, (n - 1) as nat, i);
        lemma_strike_sweep_rest(board, (n - 1) as nat, n - 1);
    }
}

/// A longer sweep goes on from where a shorter one ended: it advances the
/// board and leaves alone the cells that the shorter one has passed.
pub proof fn lemma_strike_sweep_extends(board: Seq<CellView>, n: nat, m: nat)
    requires
        n <= m <= board.len(),
    ensures
        advances(strike_sweep(board, n), strike_sweep(board, m)),
        forall|i: int| 0 <= i < n ==> strike_sweep(board, m)[i] == strike_sweep(board, n)[i],
    decreases m,
{
    let from = strike_sweep(board, n);
    if m == n {
        lemma_advances_refl(from);
    } else {
        let before = strike_sweep(board, (m - 1) as nat);
        lemma_strike_sweep_extends(board, n, (m - 1) as nat);
        lemma_strike_sweep(board, (m - 1) as nat);
        lemma_strike_step(before, m - 1);
        lemma_advances_trans(from, before, strike_step(before, m - 1));
    }
}

/// During a sweep that solves no cell, every cell has the value throughout
/// that it has in the end.
pub proof fn lemma_quiet_sweep_values(board: Seq<CellView>, n: nat, j: int)
    requires
        board.len() == 81,
        n <= 81,
        0 <= j < 81,
        unsolved_count(strike_sweep(board, 81)) >= unsolved_count(board),
    ensures
        strike_sweep(board, n)[j].value == strike_sweep(board, 81)[j].value,
        strike_sweep(board, n)[j].value == board[j].value,
{
    let mid = strike_sweep(board, n);
    let end = strike_sweep(board, 81);
    lemma_strike_sweep(board, n);
    lemma_strike_sweep(board, 81);
    lemma_strike_sweep_extends(board, n, 81);
    assert(cell_advances(board[j], mid[j]));
    assert(cell_advances(mid[j], end[j]));
    assert(cell_advances(board[j], end[j]));
    if !board[j].is_solved() && end[j].is_solved() {
        lemma_advances_strict(board, end, 81, j);
    }
}

/// A sweep that solves no cell leaves a pruned board: each unsolved cell
/// has lost every digit that is solved among its peers, and has not
/// exactly one candidate left.
pub proof fn lemma_quiet_sweep_pruned(board: Seq<CellView>)
    requires
        board.len() == 81,
        unsolved_count(strike_sweep(board, 81)) >= unsolved_count(board),
    ensures
        pruned(strike_sweep(board, 81)),
        forall|i: int|
            0 <= i < 81 && !(#[trigger] strike_sweep(board, 81)[i]).is_solved() ==> strike_sweep(
                board,
                81,
            )[i].candidates.len() != 1,
{
    let end = strike_sweep(board, 81);
    lemma_strike_sweep(board, 81);
    assert forall|i: int| 0 <= i < 81 && !(#[trigger] end[i]).is_solved() implies
        end[i].candidates.len()
        != 1 by {
        let before = strike_sweep(board, i as nat);
        lemma_strike_sweep(board, i as nat);
        lemma_quiet_sweep_values(board, i as nat, i);
        lemma_strike_sweep_extends(board, (i + 1) as nat, 81);
        assert(end[i] == strike_sweep(board, (i + 1) as nat)[i]);
        assert(!before[i].is_solved());
        assert(end[i] == before[i].excluded(solved_peer_values(before, i)));
    }
    assert forall|g: int| 0 <= g < 27 implies #[trigger] group_pruned(end, g) by {
        assert forall|j: int, k: int|
            #![trigger group_members(g)[j], group_members(g)[k]]
            0 <= j < 9 && 0 <= k < 9 && j != k implies clear_of(
            end,
            group_members(g)[j] as int,
            group_members(g)[k] as int,
        ) by {
            lemma_group_member(g, j);
            lemma_group_member(g, k);
            let a = group_members(g)[j] as int;
            let b = group_members(g)[k] as int;
            if !end[a].is_solved() && end[b].value is Some {
                let v = end[b].value->0;
                let before = strike_sweep(board, a as nat);
                lemma_quiet_sweep_values(board, a as nat, a);
                lemma_quiet_sweep_values(board, a as nat, b);
                lemma_strike_sweep_extends(board, (a + 1) as nat, 81);
                assert(end[a] == strike_sweep(board, (a + 1) as nat)[a]);
                lemma_strike_sweep(board, a as nat);
                assert(!before[a].is_solved());
                let removed = solved_peer_values(before, a);
                lemma_peer_value(before, a, g, k, v);
                lemma_without(before[a].candidates, removed);
                assert(end[a] == before[a].excluded(removed));
            }
        }
    }
}

/// What the rule leaves is pruned: no unsolved cell has a candidate that is
/// solved in its row, its column or its block, and none has exactly one
/// candidate left.
pub proof fn lemma_strike_to_fixpoint_pruned(board: Seq<CellView>)
    requires
        board.len() == 81,
    ensures
        pruned(strike_to_fixpoint(board)),
        rows_pruned(strike_to_fixpoint(board)),
        forall|i: int|
            0 <= i < 81 && !(#[trigger] strike_to_fixpoint(board)[i]).is_solved()
                ==> strike_to_fixpoint(board)[i].candidates.len() != 1,
    decreases unsolved_count(board),
{
    let next = strike_sweep(board, 81);
    lemma_strike_sweep(board, 81);
    if unsolved_count(next) < unsolved_count(board) {
        lemma_strike_to_fixpoint_pruned(next);
    } else {
        lemma_quiet_sweep_pruned(board);
    }
    let out = strike_to_fixpoint(board);
    assert forall|r: int| 0 <= r < 9 implies #[trigger] group_pruned(out, r) by {}
}


/// On a pruned board on which no unsolved cell has exactly one candidate, a
/// look at a position changes nothing.
pub proof fn lemma_strike_step_idle(board: Seq<CellView>, i: int)
    requires
        board.len() == 81,
        0 <= i < 81,
        pruned(board),
        forall|j: int| 0 <= j < 81 && !(#[trigger] board[j]).is_solved()
            ==> board[j].candidates.len() != 1,
    ensures
        strike_step(board, i) == board,
{
    if !board[i].is_solved() {
        let removed = solved_peer_values(board, i);
        assert forall|d: u8| board[i].candidates.contains(d) implies !removed.contains(d) by {
            if removed.contains(d) {
                let (g, k) = lemma_peer_value_source(board, i, d);
                lemma_group_place(g, i);
                let j = place_in_group(g, i);
                assert(group_pruned(board, g));
                assert(clear_of(board, group_members(g)[j] as int, group_members(g)[k] as int));
            }
        }
        lemma_without_strangers(board[i].candidates, removed);
        assert(board[i].excluded(removed) == board[i]);
        assert(board.update(i, board[i]) =~= board);
    }
}

/// On a pruned board on which no unsolved cell has exactly one candidate, a
/// sweep changes nothing.
pub proof fn lemma_strike_sweep_idle(board: Seq<CellView>, n: nat)
    requires
        board.len() == 81,
        n <= 81,
        pruned(board),
        forall|j: int| 0 <= j < 81 && !(#[trigger] board[j]).is_solved()
            ==> board[j].candidates.len() != 1,
    ensures
        strike_sweep(board, n) == board,
    decreases n,
{
    if n > 0 {
        lemma_strike_sweep_idle(board, (n - 1) as nat);
        lemma_strike_step_idle(board, n - 1);
    }
}

/// What the rule leaves is a fixed point: applying the rule again changes
/// nothing.
pub proof fn lemma_strike_to_fixpoint_settled(board: Seq<CellView>)
    requires
        board.len() == 81,
    ensures
        strike_sweep(strike_to_fixpoint(board), 81) == strike_to_fixpoint(board),
        strike_to_fixpoint(strike_to_fixpoint(board)) == strike_to_fixpoint(board),
{
    let out = strike_to_fixpoint(board);
    lemma_strike_to_fixpoint(board);
    lemma_strike_to_fixpoint_pruned(board);
    lemma_strike_sweep_idle(out, 81);
}

/// One look keeps a faithful board faithful.
pub proof fn lemma_strike_step_faithful(board: Seq<CellView>, i: int)
    requires
        board.len() == 81,
        0 <= i < 81,
        faithful(board),
    ensures
        faithful(strike_step(board, i)),
{
    let after = strike_step(board, i);
    lemma_strike_step(board, i);
    let removed = solved_peer_values(board, i);
    lemma_without(board[i].candidates, removed);
    if !board[i].is_solved() {
        lemma_without_no_duplicates(board[i].candidates, removed);
        let rest = without(board[i].candidates, removed);
        if rest.len() == 1 {
            assert(rest.contains(rest[0]));
        }
    }
    assert forall|j: int| 0 <= j < 81 implies {
        &&& (#[trigger] after[j]).value matches Some(v) ==> is_digit(v)
        &&& !after[j].is_solved() ==> {
            &&& after[j].candidates.no_duplicates()
            &&& forall|d: u8| after[j].candidates.contains(d) ==> is_digit(d)
            &&& forall|d: u8|
                is_digit(d) ==> after[j].candidates.contains(d) || #[trigger] solved_peer_values(
                    after,
                    j,
                ).contains(d)
        }
    } by {
        assert(cell_advances(board[j], after[j]));
        if !after[j].is_solved() {
            assert(!board[j].is_solved());
            assert forall|d: u8| is_digit(d) implies after[j].candidates.contains(d)
                || #[trigger] solved_peer_values(after, j).contains(d) by {
                if !after[j].candidates.contains(d) {
                    if board[j].candidates.contains(d) {
                        assert(j == i);
                        assert(removed.contains(d));
                    } else {
                        assert(solved_peer_values(board, j).contains(d));
                    }
                    lemma_peer_values_grow(board, after, j, d);
                }
            }
        }
    }
}

/// A sweep keeps a faithful board faithful.
pub proof fn lemma_strike_sweep_faithful(board: Seq<CellView>, n: nat)
    requires
        board.len() == 81,
        n <= 81,
        faithful(board),
    ensures
        faithful(strike_sweep(board, n)),
    decreases n,
{
    if n > 0 {
        lemma_strike_sweep_faithful(board, (n - 1) as nat);
        lemma_strike_sweep(board, (n - 1) as nat);
        lemma_strike_step_faithful(strike_sweep(board, (n - 1) as nat), n - 1);
    }
}

/// The rule keeps a faithful board faithful.
pub proof fn lemma_strike_to_fixpoint_faithful(board: Seq<CellView>)
    requires
        board.len() == 81,
        faithful(board),
    ensures
        faithful(strike_to_fixpoint(board)),
    decreases unsolved_count(board),
{
    let next = strike_sweep(board, 81);
    lemma_strike_sweep_faithful(board, 81);
    lemma_strike_sweep(board, 81);
    if unsolved_count(next) < unsolved_count(board) {
        lemma_strike_to_fixpoint_faithful(next);
    }
}

/// The last possible digit is placed: on a faithful board whose groups hold
/// no value twice, a cell whose peers hold, once the rule has run, every
/// digit but one holds that one.
pub proof fn lemma_last_digit_is_placed(board: Seq<CellView>, c: int, digit: u8)
    requires
        board.len() == 81,
        faithful(board),
        groups_distinct(board),
        0 <= c < 81,
        is_digit(digit),
        !solved_peer_values(strike_to_fixpoint(board), c).contains(digit),
        forall|d: u8|
            is_digit(d) && d != digit ==> #[trigger] solved_peer_values(
                strike_to_fixpoint(board),
                c,
            ).contains(d),
    ensures
        strike_to_fixpoint(board)[c].value == Some(digit),
{
    let out = strike_to_fixpoint(board);
    lemma_strike_to_fixpoint(board);
    lemma_strike_to_fixpoint_faithful(board);
    lemma_strike_to_fixpoint_sound(board);
    lemma_strike_to_fixpoint_pruned(board);
    let around = solved_peer_values(out, c);
    if out[c].is_solved() {
        let v = out[c].value->0;
        lemma_value_not_among_peers(out, c);
        assert(is_digit(v));
        if v != digit {
            assert(around.contains(v));
        }
    } else {
        let cands = out[c].candidates;
        assert(cands.contains(digit) || around.contains(digit));
        assert forall|d: u8| cands.contains(d) implies d == digit by {
            if d != digit {
                assert(is_digit(d));
                assert(around.contains(d));
                let (g, k) = lemma_peer_value_source(out, c, d);
                lemma_group_place(g, c);
                let j = place_in_group(g, c);
                assert(group_pruned(out, g));
                assert(clear_of(out, group_members(g)[j] as int, group_members(g)[k] as int));
            }
        }
        assert(cands.len() >= 1);
        if cands.len() >= 2 {
            assert(cands.contains(cands[0]));
            assert(cands.contains(cands[1]));
            assert(cands[0] == cands[1]);
        }
        assert(false);
    }
}

} // verus!
