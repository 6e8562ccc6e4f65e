use crate::helpers::{board_of, has_duplicates};
use crate::layout::{area_positions, column_positions, groups_of, lemma_group_member, row_positions};
use crate::objects::area::Area;
use crate::objects::cell::{candidates_for, Cell, CellView};
use crate::objects::line::{members_where, solved_among, unsolved_among, Alignment, Line};
use crate::objects::sudoku::{
    block_area, buildable, column_line, conflict, digits_only, fresh_board, fresh_cell,
    initial_board, initial_cell, lemma_fresh_is_faithful, row_line, table_of, view_of, well_shaped,
    Sudoku9x9, SudokuView,
};
use crate::rules::{
    advances, faithful, fully_solved, group_values, groups_distinct, solved_count, unsolved_count,
    unsolved_upto,
};
use crate::solver::{solve_outcome, solve_passes, SolveReport};
use vstd::prelude::*;

verus! {

/// Something that carries a stable identifier.
pub trait Identifiable {
    /// The identifier as contracts see it.
    spec fn ident(&self) -> usize;

    fn id(&self) -> (id: usize)
        ensures
            id == self.ident(),
    ;
}

/// Something that holds a list of cells, or of positions of cells.
pub trait HasCells {
    type Member;

    /// The list as contracts see it.
    spec fn members(&self) -> Seq<Self::Member>;

    fn cells(&self) -> (cells: &Vec<Self::Member>)
        ensures
            cells@ == self.members(),
    ;
}

/// Something that holds rows.
pub trait HasRows {
    /// The rows as contracts see them.
    spec fn row_list(&self) -> Seq<Line>;

    fn rows(&self) -> (rows: &Vec<Line>)
        ensures
            rows@ == self.row_list(),
    ;
}

/// Something that holds columns.
pub trait HasColumns {
    /// The columns as contracts see them.
    spec fn column_list(&self) -> Seq<Line>;

    fn columns(&self) -> (columns: &Vec<Line>)
        ensures
            columns@ == self.column_list(),
    ;
}

/// Something that holds blocks.
pub trait HasAreas {
    /// The blocks as contracts see them.
    spec fn area_list(&self) -> Seq<Area>;

    fn areas(&self) -> (areas: &Vec<Area>)
        ensures
            areas@ == self.area_list(),
    ;
}

/// The positions `0..n`, in order.
pub open spec fn all_positions(n: nat) -> Seq<usize> {
    Seq::new(n, |i: int| i as usize)
}

/// The positions `0..n`, in order.
pub fn positions(n: usize) -> (all: Vec<usize>)
    ensures
        all@ == all_positions(n as nat),
{
    let mut all: Vec<usize> = Vec::new();
    let mut i: usize = 0;
    while i < n
        invariant
            i <= n,
            all@ == all_positions(i as nat),
        decreases n - i,
    {
        all.push(i);
        i += 1;
        assert(all@ =~= all_positions(i as nat));
    }
    all
}

/// A collection of cells that is solved once each of them is.
pub trait Solvable: HasCells<Member = Cell> {
    /// Whether every cell is solved.
    fn is_solved(&self) -> (solved: bool)
        ensures
            solved == fully_solved(board_of(self.members())),
    {
        let cells = self.cells();
        let mut i: usize = 0;
        while i < cells.len()
            invariant
                i <= cells.len(),
                cells@ == self.members(),
                forall|j: int| 0 <= j < i ==> (#[trigger] board_of(cells@)[j]).is_solved(),
            decreases cells.len() - i,
        {
            if !cells[i].is_solved() {
                assert(!board_of(cells@)[i as int].is_solved());
                return false;
            }
            i += 1;
        }
        true
    }
}

/// Counts and lists of the solved and the unsolved cells.
pub trait SolveMetrics: Solvable {
    /// The positions of the unsolved cells, in ascending order.
    fn unsolved_cells(&self) -> (unsolved: Vec<usize>)
        ensures
            unsolved@ == unsolved_among(
                all_positions(self.members().len()),
                board_of(self.members()),
            ),
    {
        let cells = self.cells();
        let all = positions(cells.len());
        members_where(&all, cells, false)
    }

    /// The positions of the solved cells, in ascending order.
    fn solved_cells(&self) -> (solved: Vec<usize>)
        ensures
            solved@ == solved_among(all_positions(self.members().len()), board_of(self.members())),
    {
        let cells = self.cells();
        let all = positions(cells.len());
        members_where(&all, cells, true)
    }

    /// The number of solved cells.
    fn count_solved_cells(&self) -> (count: usize)
        ensures
            count == solved_count(board_of(self.members())),
    {
        let cells = self.cells();
        let ghost board = board_of(cells@);
        let mut count: usize = 0;
        let mut i: usize = 0;
        while i < cells.len()
            invariant
                i <= cells.len(),
                board == board_of(cells@),
                count + unsolved_upto(board, i as int) == i,
            decreases cells.len() - i,
        {
            if cells[i].is_solved() {
                count += 1;
            }
            i += 1;
        }
        count
    }
}


/// The dimensions of a grid.
pub trait SudokuConfig {
    const LENGTH: usize;

    const NUMBER_OF_COLS: usize = Self::LENGTH;

    const NUMBER_OF_ROWS: usize = Self::LENGTH;

    const NUMBER_OF_COLS_IN_AREA: usize;

    const NUMBER_OF_ROWS_IN_AREA: usize;

    fn total_number_of_cells() -> (n: usize)
        ensures
            n == Self::NUMBER_OF_COLS * Self::NUMBER_OF_ROWS,
    ;

    fn number_cells_in_area() -> (n: usize)
        ensures
            n == Self::NUMBER_OF_COLS_IN_AREA * Self::NUMBER_OF_ROWS_IN_AREA,
    ;

    fn number_of_areas() -> (n: usize)
        ensures
            n == (Self::NUMBER_OF_ROWS / Self::NUMBER_OF_ROWS_IN_AREA) * (Self::NUMBER_OF_COLS
                / Self::NUMBER_OF_COLS_IN_AREA),
    ;
}

/// A 9×9 grid that is built from a table of givens.
pub trait SimpleSudoku: SudokuConfig + SolveMetrics + HasRows + HasColumns + HasAreas + Sized {
    /// One cell for each entry of the table, row by row, numbered from 1.
    fn populate_cells(data: &Vec<Vec<Option<u8>>>) -> (cells: Vec<Cell>)
        requires
            well_shaped(table_of(data@)),
        ensures
            board_of(cells@) == fresh_board(table_of(data@)),
    {
        let ghost table = table_of(data@);
        let mut cells: Vec<Cell> = Vec::new();
        let mut row_num: usize = 0;
        while row_num < 9
            invariant
                row_num <= 9,
                table == table_of(data@),
                well_shaped(table),
                cells@.len() == row_num * 9,
                forall|i: int| 0 <= i < cells@.len()
                    ==> (#[trigger] cells@[i])@ == fresh_cell(table, i),
            decreases 9 - row_num,
        {
            let mut col_num: usize = 0;
            while col_num < 9
                invariant
                    row_num < 9,
                    col_num <= 9,
                    table == table_of(data@),
                    well_shaped(table),
                    cells@.len() == row_num * 9 + col_num,
                    forall|i: int|
                        0 <= i < cells@.len() ==> (#[trigger] cells@[i])@ == fresh_cell(table, i),
                decreases 9 - col_num,
            {
                let id = row_num * 9 + col_num + 1;
                assert(table[row_num as int].len() == 9);
                assert(table[row_num as int] == data@[row_num as int]@);
                let value = data[row_num][col_num];
                let variants = candidates_for(value);
                let ghost i = row_num * 9 + col_num;
                assert(i / 9 == row_num && i % 9 == col_num);
                cells.push(Cell::new(id, value, variants));
                col_num += 1;
            }
            row_num += 1;
        }
        assert(board_of(cells@) =~= fresh_board(table));
        cells
    }

    /// The nine rows over `cells`, top to bottom, numbered from 1.
    fn populate_rows(cells: &Vec<Cell>) -> (rows: Vec<Line>)
        requires
            cells@.len() == 81,
            forall|r: int| 0 <= r < 9
                ==> !has_duplicates(#[trigger] group_values(board_of(cells@), r)),
        ensures
            rows@.len() == 9,
            forall|r: int| 0 <= r < 9 ==> (#[trigger] rows@[r])@ == row_line(r),
    {
        let mut rows: Vec<Line> = Vec::new();
        let mut row_idx: usize = 1;
        while row_idx <= 9
            invariant
                1 <= row_idx <= 10,
                cells@.len() == 81,
                forall|r: int|
                    0 <= r < 9 ==> !has_duplicates(#[trigger] group_values(board_of(cells@), r)),
                rows@.len() == row_idx - 1,
                forall|r: int| 0 <= r < rows@.len() ==> (#[trigger] rows@[r])@ == row_line(r),
            decreases 10 - row_idx,
        {
            let row_cells = row_positions(row_idx - 1);
            proof {
                let g = row_idx - 1;
                assert forall|k: int| 0 <= k < 9 implies row_cells@[k] < 81 by {
                    lemma_group_member(g, k);
                }
                assert(!has_duplicates(group_values(board_of(cells@), g)));
            }
            rows.push(Line::new(row_idx, Alignment::Row, row_cells, cells));
            row_idx += 1;
        }
        rows
    }

    /// The nine columns over `cells`, left to right, numbered from 1.
    fn populate_columns(cells: &Vec<Cell>) -> (columns: Vec<Line>)
        requires
            cells@.len() == 81,
            forall|c: int|
                0 <= c < 9 ==> !has_duplicates(#[trigger] group_values(board_of(cells@), 9 + c)),
        ensures
            columns@.len() == 9,
            forall|c: int| 0 <= c < 9 ==> (#[trigger] columns@[c])@ == column_line(c),
    {
        let mut columns: Vec<Line> = Vec::new();
        let mut col_idx: usize = 1;
        while col_idx <= 9
            invariant
                1 <= col_idx <= 10,
                cells@.len() == 81,
                forall|c: int|
                    0 <= c < 9 ==> !has_duplicates(
                        #[trigger] group_values(board_of(cells@), 9 + c),
                    ),
                columns@.len() == col_idx - 1,
                forall|c: int| 0 <= c < columns@.len()
                    ==> (#[trigger] columns@[c])@ == column_line(c),
            decreases 10 - col_idx,
        {
            let col_cells = column_positions(col_idx - 1);
            proof {
                let c = col_idx - 1;
                assert forall|k: int| 0 <= k < 9 implies col_cells@[k] < 81 by {
                    lemma_group_member(9 + c, k);
                }
                assert(!has_duplicates(group_values(board_of(cells@), 9 + c)));
            }
            columns.push(Line::new(col_idx, Alignment::Column, col_cells, cells));
            col_idx += 1;
        }
        columns
    }

    /// The nine blocks over `cells`, row by row, numbered from 1.
    fn populate_areas(cells: &Vec<Cell>) -> (areas: Vec<Area>)
        requires
            cells@.len() == 81,
            forall|a: int|
                0 <= a < 9 ==> !has_duplicates(#[trigger] group_values(board_of(cells@), 18 + a)),
        ensures
            areas@.len() == 9,
            forall|a: int| 0 <= a < 9 ==> (#[trigger] areas@[a])@ == block_area(a),
    {
        let mut areas: Vec<Area> = Vec::new();
        let mut area_row: usize = 0;
        while area_row < 3
            invariant
                area_row <= 3,
                cells@.len() == 81,
                forall|a: int|
                    0 <= a < 9 ==> !has_duplicates(
                        #[trigger] group_values(board_of(cells@), 18 + a),
                    ),
                areas@.len() == area_row * 3,
                forall|a: int| 0 <= a < areas@.len() ==> (#[trigger] areas@[a])@ == block_area(a),
            decreases 3 - area_row,
        {
            let mut area_col: usize = 0;
            while area_col < 3
                invariant
                    area_row < 3,
                    area_col <= 3,
                    cells@.len() == 81,
                    forall|a: int|
                        0 <= a < 9 ==> !has_duplicates(
                            #[trigger] group_values(board_of(cells@), 18 + a),
                        ),
                    areas@.len() == area_row * 3 + area_col,
                    forall|a: int| 0 <= a < areas@.len()
                        ==> (#[trigger] areas@[a])@ == block_area(a),
                decreases 3 - area_col,
            {
                let area_index = area_row * 3 + area_col + 1;
                let area_cells = area_positions(area_index - 1);
                proof {
                    let a = area_index - 1;
                    assert forall|k: int| 0 <= k < 9 implies area_cells@[k] < 81 by {
                        lemma_group_member(18 + a, k);
                    }
                    assert(!has_duplicates(group_values(board_of(cells@), 18 + a)));
                }
                areas.push(Area::new(area_index, area_cells, cells));
                area_col += 1;
            }
            area_row += 1;
        }
        areas
    }

    /// The grid of a table of givens: every cell with its value or with
    /// every digit as candidate, and with its row, column and block
    /// installed.
    fn new(data: Vec<Vec<Option<u8>>>) -> (sudoku: Self)
        requires
            buildable(table_of(data@)),
        ensures
            view_of(
                sudoku.members(),
                sudoku.row_list(),
                sudoku.column_list(),
                sudoku.area_list(),
            ).wf(),
            board_of(sudoku.members()) == initial_board(table_of(data@)),
            groups_distinct(board_of(sudoku.members())),
            digits_only(table_of(data@)) ==> faithful(board_of(sudoku.members())),
    {
        let ghost table = table_of(data@);
        let mut cells = Self::populate_cells(&data);
        proof {
            assert(board_of(cells@).len() == cells@.len());
            assert(fresh_board(table).len() == 81);
            assert forall|g: int| 0 <= g < 27 implies !has_duplicates(
                #[trigger] group_values(board_of(cells@), g),
            ) by {
                assert(!conflict(table, g));
            }
            assert forall|c: int| 0 <= c < 9 implies !has_duplicates(
                #[trigger] group_values(board_of(cells@), 9 + c),
            ) by {}
            assert forall|a: int| 0 <= a < 9 implies !has_duplicates(
                #[trigger] group_values(board_of(cells@), 18 + a),
            ) by {}
        }
        let rows = Self::populate_rows(&cells);
        let columns = Self::populate_columns(&cells);
        let areas = Self::populate_areas(&cells);
        proof {
            assert forall|i: int| 0 <= i < 81 implies (#[trigger] cells@[i])@ == fresh_cell(
                table,
                i,
            ) by {
                assert(board_of(cells@)[i] == cells@[i]@);
            }
        }
        let mut index: usize = 0;
        while index < 81
            invariant
                index <= 81,
                cells@.len() == 81,
                forall|i: int| 0 <= i < index ==> (#[trigger] cells@[i])@ == initial_cell(table, i),
                forall|i: int| index <= i < 81 ==> (#[trigger] cells@[i])@ == fresh_cell(table, i),
            decreases 81 - index,
        {
            let (row, column, area) = groups_of(index);
            cells[index].set_row(row);
            cells[index].set_column(column);
            cells[index].set_area(area);
            index += 1;
        }
        proof {
            let board = board_of(cells@);
            assert(board =~= initial_board(table));
            assert forall|g: int| 0 <= g < 27 implies !has_duplicates(
                #[trigger] group_values(board, g),
            ) by {
                assert(!conflict(table, g));
                assert forall|k: int| 0 <= k < 9 implies group_values(board, g)[k] == group_values(
                    fresh_board(table),
                    g,
                )[k] by {
                    lemma_group_member(g, k);
                }
                lemma_group_member(g, 0);
                assert(group_values(board, g) =~= group_values(fresh_board(table), g));
            }
        }
        let sudoku = Self::create_sudoku(cells, rows, columns, areas);
        proof {
            if digits_only(table) {
                lemma_fresh_is_faithful(table);
            }
            let view = view_of(
                sudoku.members(),
                sudoku.row_list(),
                sudoku.column_list(),
                sudoku.area_list(),
            );
            assert forall|i: int| 0 <= i < 81 implies (#[trigger] view.cells[i]).wf() by {
                assert(view.cells[i] == initial_cell(table, i));
            }
        }
        sudoku
    }

    /// Assembles a grid from its parts.
    fn create_sudoku(
        cells: Vec<Cell>,
        rows: Vec<Line>,
        columns: Vec<Line>,
        areas: Vec<Area>,
    ) -> (sudoku: Self)
        ensures
            sudoku.members() == cells@,
            sudoku.row_list() == rows@,
            sudoku.column_list() == columns@,
            sudoku.area_list() == areas@,
    ;
}


/// An elimination rule: it narrows candidates and solves cells, and never
/// touches the topology of the grid.
pub trait Strategy {
    /// The cells that the rule leaves, given the cells it finds.
    spec fn outcome(&self, board: Seq<CellView>) -> Seq<CellView>;

    /// Applies the rule until it makes no more progress. Solved cells stay
    /// as they are and no cell gains a candidate.
    fn run(&self, sudoku: &mut Sudoku9x9)
        requires
            old(sudoku)@.wf(),
        ensures
            final(sudoku)@ == old(sudoku)@.with_cells(self.outcome(old(sudoku)@.cells)),
            final(sudoku)@.wf(),
            advances(old(sudoku)@.cells, final(sudoku)@.cells),
    ;
}


/// A strategy in a box is the strategy.
impl Strategy for Box<dyn Strategy> {
    open spec fn outcome(&self, board: Seq<CellView>) -> Seq<CellView> {
        (**self).outcome(board)
    }

    fn run(&self, sudoku: &mut Sudoku9x9) {
        (**self).run(sudoku)
    }
}

/// An engine that runs strategies of one type on a grid.
pub trait Solver<T: Strategy>: Sized {
    /// The grid that the engine works on.
    spec fn board(&self) -> SudokuView;

    /// The strategies that were added, oldest first.
    spec fn strategies(&self) -> Seq<T>;

    /// An engine for `sudoku` with no strategy yet.
    fn new(sudoku: Sudoku9x9) -> (solver: Self)
        ensures
            solver.board() == sudoku@,
            solver.strategies() == Seq::<T>::empty(),
    ;

    /// Runs the strategies, in order, pass after pass, until a pass solves
    /// the grid or solves no cell.
    fn solve(&mut self) -> (report: SolveReport)
        requires
            old(self).board().wf(),
        ensures
            final(self).strategies() == old(self).strategies(),
            final(self).board() == old(self).board().with_cells(
                solve_outcome(old(self).strategies(), old(self).board().cells),
            ),
            final(self).board().wf(),
            advances(old(self).board().cells, final(self).board().cells),
            report.solved == fully_solved(final(self).board().cells),
            report.unsolved == unsolved_count(final(self).board().cells),
            report.passes == solve_passes(old(self).strategies(), old(self).board().cells),
            1 <= report.passes <= 81,
    ;

    /// Adds `strategy` behind those that were added before.
    fn add_strategy(&mut self, strategy: T)
        ensures
            final(self).strategies() == old(self).strategies().push(strategy),
            final(self).board() == old(self).board(),
    ;
}

} // verus!
