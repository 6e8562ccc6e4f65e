use crate::helpers::{board_of, has_duplicates, member_values, members_within};
use crate::objects::cell::{Cell, CellView};
use crate::render::{ids_text, line_text, render_ids, render_line};
use crate::traits::{HasCells, Identifiable};
use vstd::prelude::*;

verus! {

/// The direction in which a line runs.
#[derive(Debug, Clone, Copy, PartialEq, Eq, Structural)]
pub enum Alignment {
    Row,
    Column,
}

/// A row or a column: the positions of its cells in the arena.
#[derive(Clone)]
pub struct Line {
    id: usize,
    alignment: Alignment,
    cells: Vec<usize>,
}

/// What a line is, as contracts see it.
pub struct LineView {
    pub id: usize,
    pub alignment: Alignment,
    pub members: Seq<usize>,
}

impl View for Line {
    type V = LineView;

    closed spec fn view(&self) -> LineView {
        LineView { id: self.id, alignment: self.alignment, members: self.cells@ }
    }
}

/// Whether every cell that `members` points at is solved.
pub open spec fn all_solved(members: Seq<usize>, board: Seq<CellView>) -> bool {
    forall|k: int| 0 <= k < members.len() ==> (#[trigger] board[members[k] as int]).is_solved()
}

/// The members that point at a solved cell, in the members' order.
pub open spec fn solved_among(members: Seq<usize>, board: Seq<CellView>) -> Seq<usize> {
    members.filter(|i: usize| board[i as int].is_solved())
}

/// The members that point at an unsolved cell, in the members' order.
pub open spec fn unsolved_among(members: Seq<usize>, board: Seq<CellView>) -> Seq<usize> {
    members.filter(|i: usize| !board[i as int].is_solved())
}

/// Whether every cell that `members` points at is solved.
pub fn members_solved(members: &Vec<usize>, cells: &Vec<Cell>) -> (solved: bool)
    requires
        members_within(members@, cells@.len()),
    ensures
        solved == all_solved(members@, board_of(cells@)),
{
    let mut k: usize = 0;
    while k < members.len()
        invariant
            k <= members.len(),
            members_within(members@, cells@.len()),
            forall|j: int| 0 <= j < k
                ==> (#[trigger] board_of(cells@)[members@[j] as int]).is_solved(),
        decreases members.len() - k,
    {
        if !cells[members[k]].is_solved() {
            assert(!board_of(cells@)[members@[k as int] as int].is_solved());
            return false;
        }
        k += 1;
    }
    true
}

/// The members whose cell is solved, if `solved` holds, or unsolved, if not.
pub fn members_where(members: &Vec<usize>, cells: &Vec<Cell>, solved: bool) -> (chosen: Vec<usize>)
    requires
        members_within(members@, cells@.len()),
    ensures
        chosen@ == if solved {
            solved_among(members@, board_of(cells@))
        } else {
            unsolved_among(members@, board_of(cells@))
        },
{
    let ghost board = board_of(cells@);
    let ghost wanted = |i: usize| board[i as int].is_solved() == solved;
    let mut chosen: Vec<usize> = Vec::new();
    let mut k: usize = 0;
    proof {
        reveal(Seq::filter);
        assert(members@.subrange(0, 0) =~= Seq::<usize>::empty());
    }
    while k < members.len()
        invariant
            k <= members.len(),
            members_within(members@, cells@.len()),
            board == board_of(cells@),
            wanted == |i: usize| board[i as int].is_solved() == solved,
            chosen@ == members@.subrange(0, k as int).filter(wanted),
        decreases members.len() - k,
    {
        let member = members[k];
        let state = cells[member].is_solved();
        proof {
            reveal(Seq::filter);
            let next = members@.subrange(0, k + 1);
            assert(next.drop_last() =~= members@.subrange(0, k as int));
            assert(next.last() == member);
        }
        if state == solved {
            chosen.push(member);
        }
        k += 1;
    }
    proof {
        assert(members@.subrange(0, k as int) =~= members@);
        if solved {
            assert(wanted =~= (|i: usize| board[i as int].is_solved()));
        } else {
            assert(wanted =~= (|i: usize| !board[i as int].is_solved()));
        }
    }
    chosen
}

impl Line {
    /// A line over the cells of `cells` that `members` points at. No two of
    /// them may hold the same solved value.
    pub fn new(id: usize, alignment: Alignment, members: Vec<usize>, cells: &Vec<Cell>) -> (line:
        Line)
        requires
            members_within(members@, cells@.len()),
            !has_duplicates(member_values(members@, board_of(cells@))),
        ensures
            line@ == (LineView { id, alignment, members: members@ }),
    {
        Line { id, alignment, cells: members }
    }

    /// Whether every cell of the line is solved.
    pub fn is_solved(&self, cells: &Vec<Cell>) -> (solved: bool)
        requires
            members_within(self@.members, cells@.len()),
        ensures
            solved == all_solved(self@.members, board_of(cells@)),
    {
        members_solved(&self.cells, cells)
    }

    /// The positions of the solved cells of the line, in the line's order.
    pub fn solved_cells(&self, cells: &Vec<Cell>) -> (solved: Vec<usize>)
        requires
            members_within(self@.members, cells@.len()),
        ensures
            solved@ == solved_among(self@.members, board_of(cells@)),
    {
        members_where(&self.cells, cells, true)
    }

    /// The positions of the unsolved cells of the line, in the line's order.
    pub fn unsolved_cells(&self, cells: &Vec<Cell>) -> (unsolved: Vec<usize>)
        requires
            members_within(self@.members, cells@.len()),
        ensures
            unsolved@ == unsolved_among(self@.members, board_of(cells@)),
    {
        members_where(&self.cells, cells, false)
    }

    /// The line as text: `Row` or `Col`, a dash, the number of the line,
    /// and in square brackets the values of its cells, `*` for an unsolved
    /// cell.
    pub fn to_text(&self, cells: &Vec<Cell>) -> (text: String)
        requires
            members_within(self@.members, cells@.len()),
        ensures
            text@ == line_text(
                self@.alignment == Alignment::Row,
                self@.id as nat,
                member_values(self@.members, board_of(cells@)),
            ),
    {
        let row = match self.alignment {
            Alignment::Row => true,
            Alignment::Column => false,
        };
        let text = render_line(row, self.id, &self.cells, cells);
        assert(member_values(self@.members, board_of(cells@)) =~= Seq::new(
            self.cells@.len(),
            |k: int| cells@[self.cells@[k] as int]@.value,
        ));
        text
    }

    /// The line as a list of numbers: its own, and in square brackets those
    /// of its cells.
    pub fn ids_text(&self, cells: &Vec<Cell>) -> (text: String)
        requires
            members_within(self@.members, cells@.len()),
        ensures
            text@ == ids_text(
                self@.id as nat,
                Seq::new(self@.members.len(), |k: int| cells@[self@.members[k] as int]@.id),
            ),
    {
        render_ids(self.id, &self.cells, cells)
    }

    /// The direction of the line.
    pub fn alignment(&self) -> (alignment: Alignment)
        ensures
            alignment == self@.alignment,
    {
        self.alignment
    }
}

impl HasCells for Line {
    type Member = usize;

    /// The positions of the line's cells in the arena.
    open spec fn members(&self) -> Seq<usize> {
        self@.members
    }

    fn cells(&self) -> (cells: &Vec<usize>) {
        &self.cells
    }
}

impl Identifiable for Line {
    open spec fn ident(&self) -> usize {
        self@.id
    }

    fn id(&self) -> (id: usize) {
        self.id
    }
}

} // verus!
