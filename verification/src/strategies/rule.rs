use crate::objects::cell::CellView;
use crate::objects::sudoku::Sudoku9x9;
use crate::strategies::excluded_from_siblings::{place_to_fixpoint, ExcludedFromSiblingsInRow};
use crate::strategies::last_possible::{strike_to_fixpoint, LastPossibleNumberStrategy};
use crate::traits::Strategy;
use vstd::prelude::*;

verus! {

/// Either rule of this library, for a solver that runs both.
#[derive(Debug, Clone, Copy, PartialEq, Eq, Structural)]
pub enum Rule {
    /// Gives a digit to its only taker in a row.
    ExcludedFromSiblingsInRow,
    /// Strikes the digits solved among the peers of a cell.
    LastPossibleNumber,
}

impl Strategy for Rule {
    open spec fn outcome(&self, board: Seq<CellView>) -> Seq<CellView> {
        match self {
            Rule::ExcludedFromSiblingsInRow => place_to_fixpoint(board),
            Rule::LastPossibleNumber => strike_to_fixpoint(board),
        }
    }

    fn run(&self, sudoku: &mut Sudoku9x9) {
        match self {
            Rule::ExcludedFromSiblingsInRow => ExcludedFromSiblingsInRow.run(sudoku),
            Rule::LastPossibleNumber => LastPossibleNumberStrategy.run(sudoku),
        }
    }
}

} // verus!
