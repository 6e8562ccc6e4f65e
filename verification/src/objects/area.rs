use crate::helpers::{board_of, has_duplicates, member_values, members_within};
use crate::objects::cell::Cell;
use crate::objects::line::{all_solved, members_solved};
use crate::render::{ids_text, render_ids};
use crate::traits::{HasCells, Identifiable};
use vstd::prelude::*;

verus! {

/// A block: the positions of its cells in the arena.
#[derive(Clone)]
pub struct Area {
    id: usize,
    cells: Vec<usize>,
}

/// What a block is, as contracts see it.
pub struct AreaView {
    pub id: usize,
    pub members: Seq<usize>,
}

impl View for Area {
    type V = AreaView;

    closed spec fn view(&self) -> AreaView {
        AreaView { id: self.id, members: self.cells@ }
    }
}

impl Area {
    /// A block over the cells of `cells` that `members` points at. No two of
    /// them may hold the same solved value.
    pub fn new(id: usize, members: Vec<usize>, cells: &Vec<Cell>) -> (area: Area)
        requires
            members_within(members@, cells@.len()),
            !has_duplicates(member_values(members@, board_of(cells@))),
        ensures
            area@ == (AreaView { id, members: members@ }),
    {
        Area { id, cells: members }
    }

    /// The block as a list of numbers: its own, and in square brackets
    /// those of its cells.
    pub fn ids_text(&self, cells: &Vec<Cell>) -> (text: String)
        requires
            members_within(self@.members, cells@.len()),
        ensures
            text@ == ids_text(
                self@.id as nat,
                Seq::new(self@.members.len(), |k: int| cells@[self@.members[k] as int]@.id),
            ),
    {
        render_ids(self.id, &self.cells, cells)
    }

    /// Whether every cell of the block is solved.
    pub fn is_solved(&self, cells: &Vec<Cell>) -> (solved: bool)
        requires
            members_within(self@.members, cells@.len()),
        ensures
            solved == all_solved(self@.members, board_of(cells@)),
    {
        members_solved(&self.cells, cells)
    }
}

impl HasCells for Area {
    type Member = usize;

    /// The positions of the block's cells in the arena.
    open spec fn members(&self) -> Seq<usize> {
        self@.members
    }

    fn cells(&self) -> (cells: &Vec<usize>) {
        &self.cells
    }
}

impl Identifiable for Area {
    open spec fn ident(&self) -> usize {
        self@.id
    }

    fn id(&self) -> (id: usize) {
        self.id
    }
}

} // verus!
