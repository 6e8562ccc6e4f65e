use crate::helpers::{has_duplicates, member_values};
use crate::layout::{
    area_members, area_of, column_members, column_of, group_holds, group_members,
    lemma_group_member, lemma_group_place, place_in_group, row_members, row_of,
};
use crate::objects::cell::CellView;
use vstd::prelude::*;

verus! {

/// Number of unsolved cells among the first `n` of `board`.
pub open spec fn unsolved_upto(board: Seq<CellView>, n: int) -> nat
    decreases n,
{
    if n <= 0 {
        0
    } else {
        unsolved_upto(board, n - 1) + if board[n - 1].is_solved() {
            0nat
        } else {
            1nat
        }
    }
}

/// Number of unsolved cells of `board`.
pub open spec fn unsolved_count(board: Seq<CellView>) -> nat {
    unsolved_upto(board, board.len() as int)
}

/// Number of solved cells of `board`.
pub open spec fn solved_count(board: Seq<CellView>) -> nat {
    (board.len() - unsolved_count(board)) as nat
}

/// Whether every cell of `board` is solved.
pub open spec fn fully_solved(board: Seq<CellView>) -> bool {
    forall|i: int| 0 <= i < board.len() ==> (#[trigger] board[i]).is_solved()
}

/// The values along group `g`.
pub open spec fn group_values(board: Seq<CellView>, g: int) -> Seq<Option<u8>> {
    member_values(group_members(g), board)
}

/// No row, column or block holds a solved value twice.
pub open spec fn groups_distinct(board: Seq<CellView>) -> bool {
    forall|g: int| 0 <= g < 27 ==> !has_duplicates(#[trigger] group_values(board, g))
}

/// Every cell of `board` is well formed.
pub open spec fn cells_wf(board: Seq<CellView>) -> bool {
    forall|i: int| 0 <= i < board.len() ==> (#[trigger] board[i]).wf()
}

/// `after` is `before` some steps later: the same cell of the same groups,
/// untouched if it was solved, and with no candidate that it did not have.
pub open spec fn cell_advances(before: CellView, after: CellView) -> bool {
    &&& after.id == before.id
    &&& after.row == before.row
    &&& after.column == before.column
    &&& after.area == before.area
    &&& before.is_solved() ==> after == before
    &&& after.candidates.len() <= before.candidates.len()
    &&& forall|d: u8| after.candidates.contains(d) ==> before.candidates.contains(d)
}

/// Every cell of `after` is the cell of `before` some steps later.
pub open spec fn advances(before: Seq<CellView>, after: Seq<CellView>) -> bool {
    &&& after.len() == before.len()
    &&& forall|i: int| 0 <= i < before.len() ==> cell_advances(#[trigger] before[i], after[i])
}

/// A filled grid that obeys the rules: digits from 1 to 9, none twice in a
/// row, a column or a block.
pub open spec fn is_solution(sol: Seq<u8>) -> bool {
    &&& sol.len() == 81
    &&& forall|i: int| 0 <= i < 81 ==> 1 <= #[trigger] sol[i] <= 9
    &&& forall|g: int, j: int, k: int|
        0 <= g < 27 && 0 <= j < k < 9 ==> sol[(#[trigger] group_members(g)[j]) as int]
            != sol[(#[trigger] group_members(g)[k]) as int]
}

/// `sol` is still possible on `board`: it agrees with every solved value and
/// each of its digits is a candidate of its cell.
pub open spec fn consistent(board: Seq<CellView>, sol: Seq<u8>) -> bool {
    &&& board.len() == sol.len()
    &&& forall|i: int|
        0 <= i < board.len() ==> {
            &&& (#[trigger] board[i]).candidates.contains(sol[i])
            &&& board[i].value matches Some(v) ==> v == sol[i]
        }
}

/// The solved values along `members`, the cell at `except` left out.
pub open spec fn values_in(members: Seq<usize>, board: Seq<CellView>, except: int) -> Set<u8> {
    Set::new(
        |d: u8|
            exists|k: int|
                0 <= k < members.len() && #[trigger] members[k] != except
                    && board[members[k] as int].value
                    == Some(d),
    )
}

/// The values already solved in the block, the row and the column of
/// position `i`, the cell itself left out.
pub open spec fn solved_peer_values(board: Seq<CellView>, i: int) -> Set<u8> {
    values_in(area_members(area_of(i)), board, i) + values_in(row_members(row_of(i)), board, i)
        + values_in(column_members(column_of(i)), board, i)
}

/// The cell at `a` is solved, or has not the value of the cell at `b` as
/// candidate.
pub open spec fn clear_of(board: Seq<CellView>, a: int, b: int) -> bool {
    !board[a].is_solved() ==> (board[b].value matches Some(v) ==> !board[a].candidates.contains(v))
}

/// No unsolved cell of group `g` has a candidate that is solved elsewhere in
/// the group.
pub open spec fn group_pruned(board: Seq<CellView>, g: int) -> bool {
    forall|j: int, k: int|
        #![trigger group_members(g)[j], group_members(g)[k]]
        0 <= j < 9 && 0 <= k < 9 && j != k ==> clear_of(
            board,
            group_members(g)[j] as int,
            group_members(g)[k] as int,
        )
}

/// No unsolved cell has a candidate that is solved elsewhere in its row.
pub open spec fn rows_pruned(board: Seq<CellView>) -> bool {
    forall|r: int| 0 <= r < 9 ==> #[trigger] group_pruned(board, r)
}

/// No unsolved cell has a candidate that is solved elsewhere in its row, its
/// column or its block.
pub open spec fn pruned(board: Seq<CellView>) -> bool {
    forall|g: int| 0 <= g < 27 ==> #[trigger] group_pruned(board, g)
}

/// Replacing one cell changes the number of unsolved cells by what that cell
/// contributes.
pub proof fn lemma_unsolved_update(board: Seq<CellView>, i: int, cell: CellView, n: int)
    requires
        0 <= i < board.len(),
        0 <= n <= board.len(),
    ensures
        unsolved_upto(board.update(i, cell), n) + (if i < n && !board[i].is_solved() {
            1nat
        } else {
            0nat
        }) == unsolved_upto(board, n) + (if i < n && !cell.is_solved() {
            1nat
        } else {
            0nat
        }),
    decreases n,
{
    if n > 0 {
        lemma_unsolved_update(board, i, cell, n - 1);
    }
}

/// The unsolved cells are at most as many as the cells, and none exactly
/// when the board is fully solved.
pub proof fn lemma_unsolved_bounds(board: Seq<CellView>, n: int)
    requires
        0 <= n <= board.len(),
    ensures
        unsolved_upto(board, n) <= n,
        unsolved_upto(board, n) == 0 <==> forall|i: int| 0 <= i < n
            ==> (#[trigger] board[i]).is_solved(),
    decreases n,
{
    if n > 0 {
        lemma_unsolved_bounds(board, n - 1);
        if unsolved_upto(board, n) == 0 {
            assert forall|i: int| 0 <= i < n implies (#[trigger] board[i]).is_solved() by {
                if i < n - 1 {
                } else {
                }
            }
        }
    }
}

/// A board is fully solved exactly when it has no unsolved cell.
pub proof fn lemma_fully_solved(board: Seq<CellView>)
    ensures
        fully_solved(board) <==> unsolved_count(board) == 0,
        unsolved_count(board) <= board.len(),
{
    lemma_unsolved_bounds(board, board.len() as int);
}

/// Solved cells stay solved: a board that advances has no more unsolved
/// cells than before.
pub proof fn lemma_advances_count(before: Seq<CellView>, after: Seq<CellView>, n: int)
    requires
        advances(before, after),
        0 <= n <= before.len(),
    ensures
        unsolved_upto(after, n) <= unsolved_upto(before, n),
    decreases n,
{
    if n > 0 {
        lemma_advances_count(before, after, n - 1);
        assert(cell_advances(before[n - 1], after[n - 1]));
    }
}

/// Where a board advances without solving a cell, the same cells are
/// unsolved; where it solves one, fewer are.
pub proof fn lemma_advances_strict(before: Seq<CellView>, after: Seq<CellView>, n: int, i: int)
    requires
        advances(before, after),
        0 <= i < n <= before.len(),
        !before[i].is_solved(),
        after[i].is_solved(),
    ensures
        unsolved_upto(after, n) < unsolved_upto(before, n),
    decreases n,
{
    assert(cell_advances(before[n - 1], after[n - 1]));
    if i < n - 1 {
        lemma_advances_strict(before, after, n - 1, i);
    } else {
        lemma_advances_count(before, after, n - 1);
    }
}

/// Monotonicity: on a board that advances no candidate list grows and the
/// number of solved cells does not fall.
pub proof fn lemma_advances_monotone(before: Seq<CellView>, after: Seq<CellView>)
    requires
        advances(before, after),
    ensures
        solved_count(before) <= solved_count(after),
        unsolved_count(after) <= unsolved_count(before),
        forall|i: int|
            0 <= i < before.len() ==> (#[trigger] after[i]).candidates.len()
                <= before[i].candidates.len(),
        forall|i: int|
            0 <= i < before.len() && before[i].is_solved() ==> (#[trigger] after[i]).value
                == before[i].value,
{
    lemma_advances_count(before, after, before.len() as int);
    lemma_unsolved_bounds(before, before.len() as int);
    lemma_unsolved_bounds(after, after.len() as int);
    assert forall|i: int| 0 <= i < before.len() implies (#[trigger] after[i]).candidates.len()
        <= before[i].candidates.len() && (before[i].is_solved() ==> after[i].value
        == before[i].value) by {
        assert(cell_advances(before[i], after[i]));
    }
}

/// A fully solved board that advances stays as it is.
pub proof fn lemma_advances_solved(before: Seq<CellView>, after: Seq<CellView>)
    requires
        advances(before, after),
        fully_solved(before),
    ensures
        after == before,
{
    assert forall|i: int| 0 <= i < before.len() implies after[i] == before[i] by {
        assert(cell_advances(before[i], after[i]));
        assert(before[i].is_solved());
    }
    assert(after =~= before);
}

/// Advancing is reflexive.
pub proof fn lemma_advances_refl(board: Seq<CellView>)
    ensures
        advances(board, board),
{
}

/// Advancing is transitive.
pub proof fn lemma_advances_trans(a: Seq<CellView>, b: Seq<CellView>, c: Seq<CellView>)
    requires
        advances(a, b),
        advances(b, c),
    ensures
        advances(a, c),
{
    assert forall|i: int| 0 <= i < a.len() implies cell_advances(#[trigger] a[i], c[i]) by {
        assert(cell_advances(a[i], b[i]));
        assert(cell_advances(b[i], c[i]));
    }
}

/// A board on which some solution is still possible holds no solved value
/// twice in a group, and every cell of it has a candidate left.
pub proof fn lemma_consistent_is_distinct(board: Seq<CellView>, sol: Seq<u8>)
    requires
        is_solution(sol),
        consistent(board, sol),
    ensures
        groups_distinct(board),
        forall|i: int| 0 <= i < 81 ==> (#[trigger] board[i]).candidates.len() > 0,
{
    assert forall|g: int| 0 <= g < 27 implies
        !has_duplicates(#[trigger] group_values(board, g)) by {
        let values = group_values(board, g);
        if has_duplicates(values) {
            let (j, k) = choose|j: int, k: int|
                0 <= j < k < values.len() && values[j] is Some
                    && #[trigger] values[j] == #[trigger] values[k];
            lemma_group_member(g, j);
            lemma_group_member(g, k);
            let a = group_members(g)[j] as int;
            let b = group_members(g)[k] as int;
            assert(board[a].value == values[j]);
            assert(board[b].value == values[k]);
            assert(sol[a] == sol[b]);
        }
    }
    assert forall|i: int| 0 <= i < 81 implies (#[trigger] board[i]).candidates.len() > 0 by {
        assert(board[i].candidates.contains(sol[i]));
    }
}


/// A digit solved at another place of a group that holds position `i` is
/// among the values solved around `i`.
pub proof fn lemma_peer_value(board: Seq<CellView>, i: int, g: int, k: int, d: u8)
    requires
        0 <= i < 81,
        0 <= g < 27,
        0 <= k < 9,
        group_holds(g, i),
        group_members(g)[k] != i,
        board[group_members(g)[k] as int].value == Some(d),
    ensures
        solved_peer_values(board, i).contains(d),
{
    if g < 9 {
        assert(group_members(g) == row_members(row_of(i)));
        assert(values_in(row_members(row_of(i)), board, i).contains(d));
    } else if g < 18 {
        assert(group_members(g) == column_members(column_of(i)));
        assert(values_in(column_members(column_of(i)), board, i).contains(d));
    } else {
        assert(group_members(g) == area_members(area_of(i)));
        assert(values_in(area_members(area_of(i)), board, i).contains(d));
    }
}

/// A value solved around position `i` is solved at another place of a group
/// that holds `i`.
pub proof fn lemma_peer_value_source(board: Seq<CellView>, i: int, d: u8) -> (at: (int, int))
    requires
        0 <= i < 81,
        solved_peer_values(board, i).contains(d),
    ensures
        0 <= at.0 < 27,
        0 <= at.1 < 9,
        group_holds(at.0, i),
        group_members(at.0)[at.1] != i,
        board[group_members(at.0)[at.1] as int].value == Some(d),
{
    let (r, c, a) = (row_of(i), column_of(i), area_of(i));
    if values_in(area_members(a), board, i).contains(d) {
        let members = area_members(a);
        let k = choose|k: int|
            0 <= k < members.len() && #[trigger] members[k] != i && board[members[k] as int].value
                == Some(d);
        assert(group_members(18 + a) == members);
        (18 + a, k)
    } else if values_in(row_members(r), board, i).contains(d) {
        let members = row_members(r);
        let k = choose|k: int|
            0 <= k < members.len() && #[trigger] members[k] != i && board[members[k] as int].value
                == Some(d);
        assert(group_members(r) == members);
        (r, k)
    } else {
        let members = column_members(c);
        assert(values_in(members, board, i).contains(d));
        let k = choose|k: int|
            0 <= k < members.len() && #[trigger] members[k] != i && board[members[k] as int].value
                == Some(d);
        assert(group_members(9 + c) == members);
        (9 + c, k)
    }
}

/// In a solution, two places of one group hold different digits.
pub proof fn lemma_solution_distinct(sol: Seq<u8>, g: int, j: int, k: int)
    requires
        is_solution(sol),
        0 <= g < 27,
        0 <= j < 9,
        0 <= k < 9,
        j != k,
    ensures
        sol[group_members(g)[j] as int] != sol[group_members(g)[k] as int],
{
    if j < k {
        assert(sol[group_members(g)[j] as int] != sol[group_members(g)[k] as int]);
    } else {
        assert(sol[group_members(g)[k] as int] != sol[group_members(g)[j] as int]);
    }
}

/// In a solution, no digit solved around a position is the digit of that
/// position.
pub proof fn lemma_solution_avoids_peers(board: Seq<CellView>, sol: Seq<u8>, i: int)
    requires
        is_solution(sol),
        consistent(board, sol),
        0 <= i < 81,
    ensures
        !solved_peer_values(board, i).contains(sol[i]),
{
    if solved_peer_values(board, i).contains(sol[i]) {
        let (g, k) = lemma_peer_value_source(board, i, sol[i]);
        lemma_group_place(g, i);
        let j = place_in_group(g, i);
        lemma_group_member(g, k);
        let p = group_members(g)[k] as int;
        assert(board[p].value == Some(sol[i]));
        assert(sol[p] == sol[i]);
        lemma_solution_distinct(sol, g, j, k);
    }
}


/// In a solution, every group holds every digit from 1 to 9.
pub proof fn lemma_solution_has_digit(sol: Seq<u8>, g: int, d: u8) -> (k: int)
    requires
        is_solution(sol),
        0 <= g < 27,
        1 <= d <= 9,
    ensures
        0 <= k < 9,
        sol[group_members(g)[k] as int] == d,
{
    let digits = Seq::new(9, |k: int| sol[group_members(g)[k] as int] as int);
    assert forall|j: int, k: int| 0 <= j < 9 && 0 <= k < 9 && j != k implies digits[j]
        != digits[k] by {
        lemma_solution_distinct(sol, g, j, k);
    }
    assert(digits.no_duplicates());
    digits.unique_seq_to_set();
    if !digits.contains(d as int) {
        let range = vstd::set_lib::set_int_range(1, 10);
        vstd::set_lib::lemma_int_range(1, 10);
        let rest = range.remove(d as int);
        assert forall|x: int| digits.to_set().contains(x) implies rest.contains(x) by {
            let k = choose|k: int| 0 <= k < digits.len() && digits[k] == x;
            lemma_group_member(g, k);
            assert(1 <= sol[group_members(g)[k] as int] <= 9);
        }
        assert(digits.to_set().subset_of(rest));
        vstd::set_lib::lemma_len_subset(digits.to_set(), rest);
        assert(false);
    }
    let k = choose|k: int| 0 <= k < digits.len() && digits[k] == d as int;
    k
}

/// Whether `d` is a digit from 1 to 9.
pub open spec fn is_digit(d: u8) -> bool {
    1 <= d <= 9
}

/// The board is one that elimination alone has worked on: every solved
/// value is a digit, and every unsolved cell lists digits, none twice, and
/// lacks no digit but those that are solved among its peers.
pub open spec fn faithful(board: Seq<CellView>) -> bool {
    forall|i: int|
        0 <= i < 81 ==> {
            &&& (#[trigger] board[i]).value matches Some(v) ==> is_digit(v)
            &&& !board[i].is_solved() ==> {
                &&& board[i].candidates.no_duplicates()
                &&& forall|d: u8| board[i].candidates.contains(d) ==> is_digit(d)
                &&& forall|d: u8|
                    is_digit(d)
                        ==> board[i].candidates.contains(d) || #[trigger] solved_peer_values(
                        board,
                        i,
                    ).contains(d)
            }
        }
}

/// On a board that advances, what was solved among the peers of a cell is
/// still solved among them.
pub proof fn lemma_peer_values_grow(before: Seq<CellView>, after: Seq<CellView>, i: int, d: u8)
    requires
        before.len() == 81,
        advances(before, after),
        0 <= i < 81,
        solved_peer_values(before, i).contains(d),
    ensures
        solved_peer_values(after, i).contains(d),
{
    let (g, k) = lemma_peer_value_source(before, i, d);
    lemma_group_member(g, k);
    let p = group_members(g)[k] as int;
    assert(cell_advances(before[p], after[p]));
    lemma_peer_value(after, i, g, k, d);
}

/// On a board whose groups hold no value twice, the value of a cell is not
/// solved among its peers.
pub proof fn lemma_value_not_among_peers(board: Seq<CellView>, i: int)
    requires
        board.len() == 81,
        groups_distinct(board),
        0 <= i < 81,
        board[i].value is Some,
    ensures
        !solved_peer_values(board, i).contains(board[i].value->0),
{
    let v = board[i].value->0;
    if solved_peer_values(board, i).contains(v) {
        let (g, k) = lemma_peer_value_source(board, i, v);
        lemma_group_place(g, i);
        lemma_group_member(g, k);
        let j = place_in_group(g, i);
        let values = group_values(board, g);
        assert(values[j] == Some(v));
        assert(values[k] == Some(v));
        assert(j != k);
        if j < k {
            assert(values[j] is Some && values[j] == values[k]);
        } else {
            assert(values[k] is Some && values[k] == values[j]);
        }
        assert(has_duplicates(values));
    }
}

} // verus!
