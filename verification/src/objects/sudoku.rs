use crate::helpers::{board_of, has_duplicate_values, has_duplicates};
use crate::layout::{
    area_members, area_of, column_members, column_of, group_positions, lemma_group_member,
    row_members, row_of,
};
use crate::objects::area::{Area, AreaView};
use crate::objects::cell::{full_range, initial_candidates, lemma_excluded_wf, Cell, CellView};
use crate::objects::line::{Alignment, Line, LineView};
use crate::objects::traits::Candidate;
use crate::render::{grid_text, render_grid};
use crate::rules::{cells_wf, faithful, group_values, groups_distinct, is_digit, solved_peer_values};
use crate::traits::{
    HasAreas, HasCells, HasColumns, HasRows, SimpleSudoku, Solvable, SolveMetrics, SudokuConfig,
};
use vstd::prelude::*;
use vstd::std_specs::cmp::{PartialEqSpec, PartialEqSpecImpl};

verus! {

/// A table of givens as contracts see it: rows of optional digits.
pub open spec fn table_of(data: Seq<Vec<Option<u8>>>) -> Seq<Seq<Option<u8>>> {
    data.map_values(|row: Vec<Option<u8>>| row@)
}

/// Nine rows of nine entries each.
pub open spec fn well_shaped(table: Seq<Seq<Option<u8>>>) -> bool {
    &&& table.len() == 9
    &&& forall|r: int| 0 <= r < 9 ==> (#[trigger] table[r]).len() == 9
}

/// The entry of the table for position `i`, row by row.
pub open spec fn given(table: Seq<Seq<Option<u8>>>, i: int) -> Option<u8> {
    table[row_of(i)][column_of(i)]
}

/// The cell at position `i` before it knows its groups.
pub open spec fn fresh_cell(table: Seq<Seq<Option<u8>>>, i: int) -> CellView {
    CellView {
        id: (i + 1) as usize,
        value: given(table, i),
        candidates: initial_candidates(given(table, i)),
        row: None,
        column: None,
        area: None,
    }
}

/// The cell at position `i` of a grid that was just built.
pub open spec fn initial_cell(table: Seq<Seq<Option<u8>>>, i: int) -> CellView {
    CellView {
        row: Some(row_of(i) as usize),
        column: Some(column_of(i) as usize),
        area: Some(area_of(i) as usize),
        ..fresh_cell(table, i)
    }
}

/// The cells of a table before they know their groups.
pub open spec fn fresh_board(table: Seq<Seq<Option<u8>>>) -> Seq<CellView> {
    Seq::new(81, |i: int| fresh_cell(table, i))
}

/// The cells of a grid that was just built from `table`.
pub open spec fn initial_board(table: Seq<Seq<Option<u8>>>) -> Seq<CellView> {
    Seq::new(81, |i: int| initial_cell(table, i))
}

/// Whether group `g` of the table holds a digit twice.
pub open spec fn conflict(table: Seq<Seq<Option<u8>>>, g: int) -> bool {
    has_duplicates(group_values(fresh_board(table), g))
}

/// A table from which a grid can be built: well shaped, and no digit twice
/// in a row, a column or a block.
pub open spec fn buildable(table: Seq<Seq<Option<u8>>>) -> bool {
    &&& well_shaped(table)
    &&& forall|g: int| 0 <= g < 27 ==> !#[trigger] conflict(table, g)
}

/// Group `g` is the first, rows before columns before blocks, that holds a
/// digit twice.
pub open spec fn first_conflict(table: Seq<Seq<Option<u8>>>, g: int) -> bool {
    &&& 0 <= g < 27
    &&& conflict(table, g)
    &&& forall|h: int| 0 <= h < g ==> !#[trigger] conflict(table, h)
}

/// The kind of a group.
#[derive(Debug, Clone, Copy, PartialEq, Eq, Structural)]
pub enum GroupKind {
    Row,
    Column,
    Area,
}

/// Why no grid can be built from a table.
#[derive(Debug, Clone, Copy, PartialEq, Eq, Structural)]
pub enum BuildError {
    /// The table does not have nine rows of nine entries.
    MalformedShape,
    /// The group of that kind and number, counted from 1, holds a digit
    /// twice.
    Duplicate { kind: GroupKind, id: usize },
}

/// The place of a group among all groups: rows first, then columns, then
/// blocks.
pub open spec fn group_number(kind: GroupKind, id: usize) -> int {
    match kind {
        GroupKind::Row => id - 1,
        GroupKind::Column => 9 + id - 1,
        GroupKind::Area => 18 + id - 1,
    }
}

/// The solved values of a board, cell by cell.
pub open spec fn values_of(board: Seq<CellView>) -> Seq<Option<u8>> {
    Seq::new(board.len(), |i: int| board[i].value)
}

/// Round trip: a grid that was just built holds, cell by cell, the entries
/// of its table, so two grids built from one table are equal.
pub proof fn lemma_round_trip(table: Seq<Seq<Option<u8>>>, first: Sudoku9x9, second: Sudoku9x9)
    requires
        first@.cells == initial_board(table),
        second@.cells == initial_board(table),
    ensures
        values_of(first@.cells) == Seq::new(81, |i: int| given(table, i)),
        PartialEqSpec::eq_spec(&first, &second),
{
    assert(values_of(first@.cells) =~= Seq::new(81, |i: int| given(table, i)));
}

/// Whether every given of the table is a digit from 1 to 9.
pub open spec fn digits_only(table: Seq<Seq<Option<u8>>>) -> bool {
    forall|i: int| 0 <= i < 81 ==> (#[trigger] given(table, i) matches Some(v) ==> is_digit(v))
}

/// A grid that was just built from a table of digits is faithful: every
/// given is a digit and every unsolved cell has every digit as candidate.
pub proof fn lemma_fresh_is_faithful(table: Seq<Seq<Option<u8>>>)
    requires
        digits_only(table),
    ensures
        faithful(initial_board(table)),
{
    let board = initial_board(table);
    let all = full_range();
    assert(all.len() == 9);
    assert(all[0] == 1 && all[1] == 2 && all[2] == 3 && all[3] == 4 && all[4] == 5 && all[5] == 6
        && all[6] == 7 && all[7] == 8 && all[8] == 9);
    assert forall|a: int, b: int| 0 <= a < all.len() && 0 <= b < all.len() && a != b implies all[a]
        != all[b] by {
        assert(all[a] == a + 1 && all[b] == b + 1);
    }
    assert forall|d: u8| all.contains(d) implies is_digit(d) by {
        let k = choose|k: int| 0 <= k < all.len() && all[k] == d;
        assert(all[k] == k + 1);
    }
    assert forall|d: u8| is_digit(d) implies all.contains(d) by {
        assert(all[d - 1] == d);
    }
    assert forall|i: int| 0 <= i < 81 implies {
        &&& (#[trigger] board[i]).value matches Some(v) ==> is_digit(v)
        &&& !board[i].is_solved() ==> {
            &&& board[i].candidates.no_duplicates()
            &&& forall|d: u8| board[i].candidates.contains(d) ==> is_digit(d)
            &&& forall|d: u8|
                is_digit(d) ==> board[i].candidates.contains(d) || #[trigger] solved_peer_values(
                    board,
                    i,
                ).contains(d)
        }
    } by {
        assert(board[i].value == given(table, i));
        if !board[i].is_solved() {
            assert(board[i].candidates == all);
        }
    }
}

/// Row `r` as a line.
pub open spec fn row_line(r: int) -> LineView {
    LineView { id: (r + 1) as usize, alignment: Alignment::Row, members: row_members(r) }
}

/// Column `c` as a line.
pub open spec fn column_line(c: int) -> LineView {
    LineView { id: (c + 1) as usize, alignment: Alignment::Column, members: column_members(c) }
}

/// Block `a` as an area.
pub open spec fn block_area(a: int) -> AreaView {
    AreaView { id: (a + 1) as usize, members: area_members(a) }
}

/// What a grid is, as contracts see it.
pub struct SudokuView {
    pub cells: Seq<CellView>,
    pub rows: Seq<LineView>,
    pub columns: Seq<LineView>,
    pub areas: Seq<AreaView>,
}

impl SudokuView {
    /// The topology is that of a 9×9 grid: every cell carries its number
    /// and names its row, column and block, and every group lists its
    /// cells.
    pub open spec fn framed(self) -> bool {
        &&& self.cells.len() == 81
        &&& self.rows.len() == 9
        &&& self.columns.len() == 9
        &&& self.areas.len() == 9
        &&& forall|i: int|
            0 <= i < 81 ==> {
                &&& (#[trigger] self.cells[i]).id == i + 1
                &&& self.cells[i].row == Some(row_of(i) as usize)
                &&& self.cells[i].column == Some(column_of(i) as usize)
                &&& self.cells[i].area == Some(area_of(i) as usize)
            }
        &&& forall|r: int| 0 <= r < 9 ==> #[trigger] self.rows[r] == row_line(r)
        &&& forall|c: int| 0 <= c < 9 ==> #[trigger] self.columns[c] == column_line(c)
        &&& forall|a: int| 0 <= a < 9 ==> #[trigger] self.areas[a] == block_area(a)
    }

    /// The topology is intact and every solved cell has its value as only
    /// candidate.
    pub open spec fn wf(self) -> bool {
        &&& self.framed()
        &&& cells_wf(self.cells)
    }

    /// The same grid with other cells.
    pub open spec fn with_cells(self, cells: Seq<CellView>) -> SudokuView {
        SudokuView { cells, ..self }
    }
}

/// The 9×9 grid: the arena of its cells and its rows, columns and blocks.
#[derive(Clone)]
pub struct Sudoku9x9 {
    cells: Vec<Cell>,
    rows: Vec<Line>,
    columns: Vec<Line>,
    areas: Vec<Area>,
}

/// The grid that holds what the four lists hold.
pub open spec fn view_of(
    cells: Seq<Cell>,
    rows: Seq<Line>,
    columns: Seq<Line>,
    areas: Seq<Area>,
) -> SudokuView {
    SudokuView {
        cells: board_of(cells),
        rows: rows.map_values(|line: Line| line@),
        columns: columns.map_values(|line: Line| line@),
        areas: areas.map_values(|area: Area| area@),
    }
}

impl View for Sudoku9x9 {
    type V = SudokuView;

    open spec fn view(&self) -> SudokuView {
        view_of(self.members(), self.row_list(), self.column_list(), self.area_list())
    }
}

/// Whether the table has nine rows of nine entries.
pub fn is_well_shaped(data: &Vec<Vec<Option<u8>>>) -> (ok: bool)
    ensures
        ok == well_shaped(table_of(data@)),
{
    if data.len() != 9 {
        return false;
    }
    let ghost table = table_of(data@);
    let mut r: usize = 0;
    while r < 9
        invariant
            r <= 9,
            data@.len() == 9,
            table == table_of(data@),
            forall|q: int| 0 <= q < r ==> (#[trigger] table[q]).len() == 9,
        decreases 9 - r,
    {
        assert(table[r as int] == data@[r as int]@);
        if data[r].len() != 9 {
            return false;
        }
        r += 1;
    }
    true
}

impl Sudoku9x9 {
    /// The topology is intact and every solved cell has its value as only
    /// candidate.
    pub open spec fn wf(&self) -> bool {
        self@.wf()
    }

    /// The grid of a table of givens, or the reason why there is none: a
    /// table of the wrong shape, or the first group, rows before columns
    /// before blocks, that holds a digit twice.
    pub fn try_new(data: Vec<Vec<Option<u8>>>) -> (built: Result<Sudoku9x9, BuildError>)
        ensures
            match built {
                Ok(sudoku) => {
                    &&& buildable(table_of(data@))
                    &&& sudoku@.wf()
                    &&& sudoku@.cells == initial_board(table_of(data@))
                    &&& groups_distinct(sudoku@.cells)
                    &&& digits_only(table_of(data@)) ==> faithful(sudoku@.cells)
                },
                Err(BuildError::MalformedShape) => !well_shaped(table_of(data@)),
                Err(BuildError::Duplicate { kind, id }) => {
                    &&& well_shaped(table_of(data@))
                    &&& 1 <= id <= 9
                    &&& first_conflict(table_of(data@), group_number(kind, id))
                },
            },
    {
        if !is_well_shaped(&data) {
            return Err(BuildError::MalformedShape);
        }
        let ghost table = table_of(data@);
        let cells = Self::populate_cells(&data);
        assert(board_of(cells@).len() == cells@.len());
        let mut group: usize = 0;
        while group < 27
            invariant
                group <= 27,
                cells@.len() == 81,
                table == table_of(data@),
                well_shaped(table),
                board_of(cells@) == fresh_board(table),
                forall|h: int| 0 <= h < group ==> !#[trigger] conflict(table, h),
            decreases 27 - group,
        {
            let members = group_positions(group);
            proof {
                assert forall|k: int| 0 <= k < members@.len() implies members@[k] < 81 by {
                    lemma_group_member(group as int, k);
                }
            }
            if has_duplicate_values(&members, &cells) {
                assert(conflict(table, group as int));
                if group < 9 {
                    return Err(BuildError::Duplicate { kind: GroupKind::Row, id: group + 1 });
                } else if group < 18 {
                    return Err(BuildError::Duplicate { kind: GroupKind::Column, id: group - 8 });
                } else {
                    return Err(BuildError::Duplicate { kind: GroupKind::Area, id: group - 17 });
                }
            }
            group += 1;
        }
        Ok(Self::new(data))
    }

    /// The grid as text: an empty line, then nine lines of nine cells,
    /// blocks parted by bars and by lines of dashes, `*` for an unsolved
    /// cell.
    pub fn to_text(&self) -> (text: String)
        requires
            self@.cells.len() == 81,
        ensures
            text@ == grid_text(values_of(self@.cells)),
    {
        assert(board_of(self.cells@).len() == self.cells@.len());
        let text = render_grid(&self.cells);
        assert(values_of(self@.cells) =~= Seq::new(81, |i: int| self.cells@[i]@.value));
        text
    }

    /// Assigns `value` to the cell at `index`, as `Cell::set_value` does.
    pub fn set_cell_value(&mut self, index: usize, value: Option<u8>)
        requires
            index < old(self)@.cells.len(),
        ensures
            final(self)@ == old(self)@.with_cells(
                old(self)@.cells.update(
                    index as int,
                    old(self)@.cells[index as int].assigned(value),
                ),
            ),
            old(self)@.framed() ==> final(self)@.framed(),
            old(self)@.wf() ==> final(self)@.wf(),
    {
        assert(board_of(self.cells@).len() == self.cells@.len());
        proof {
            let cell = old(self)@.cells[index as int];
            if cell.value is None && value is Some {
                assert(cell.assigned(value).candidates =~= seq![value->0]);
            }
        }
        self.cells[index].set_value(value);
        assert(board_of(self.cells@) =~= board_of(old(self).cells@).update(
            index as int,
            board_of(old(self).cells@)[index as int].assigned(value),
        ));
    }

    /// Strikes the digits of `values` from the candidates of the cell at
    /// `index`, as `Cell::exclude_values` does.
    pub fn exclude_cell_values<T: Candidate>(&mut self, index: usize, values: T) -> (settled: bool)
        requires
            index < old(self)@.cells.len(),
        ensures
            final(self)@ == old(self)@.with_cells(
                old(self)@.cells.update(
                    index as int,
                    old(self)@.cells[index as int].excluded(values.digits()),
                ),
            ),
            settled == old(self)@.cells[index as int].settles(values.digits()),
            old(self)@.framed() ==> final(self)@.framed(),
            old(self)@.wf() ==> final(self)@.wf(),
    {
        assert(board_of(self.cells@).len() == self.cells@.len());
        proof {
            let cell = old(self)@.cells[index as int];
            if cell.wf() {
                lemma_excluded_wf(cell, values.digits());
            }
        }
        let settled = self.cells[index].exclude_values(values);
        assert(board_of(self.cells@) =~= board_of(old(self).cells@).update(
            index as int,
            board_of(old(self).cells@)[index as int].excluded(values.digits()),
        ));
        settled
    }
}

impl PartialEq for Sudoku9x9 {
    /// Two grids are equal when their cells hold the same values, one by
    /// one, whatever their candidates.
    fn eq(&self, other: &Sudoku9x9) -> (same: bool) {
        if self.cells.len() != other.cells.len() {
            assert(values_of(self@.cells).len() != values_of(other@.cells).len());
            return false;
        }
        let mut i: usize = 0;
        while i < self.cells.len()
            invariant
                i <= self.cells@.len(),
                self.cells@.len() == other.cells@.len(),
                forall|j: int| 0 <= j < i
                    ==> (#[trigger] self.cells@[j])@.value == other.cells@[j]@.value,
            decreases self.cells@.len() - i,
        {
            if !(self.cells[i] == other.cells[i]) {
                assert(values_of(self@.cells)[i as int] != values_of(other@.cells)[i as int]);
                return false;
            }
            i += 1;
        }
        assert(values_of(self@.cells) =~= values_of(other@.cells));
        true
    }
}

impl PartialEqSpecImpl for Sudoku9x9 {
    open spec fn obeys_eq_spec() -> bool {
        true
    }

    open spec fn eq_spec(&self, other: &Sudoku9x9) -> bool {
        values_of(self@.cells) == values_of(other@.cells)
    }
}

impl SudokuConfig for Sudoku9x9 {
    const LENGTH: usize = 9;

    const NUMBER_OF_COLS: usize = 9;

    const NUMBER_OF_ROWS: usize = 9;

    const NUMBER_OF_COLS_IN_AREA: usize = 3;

    const NUMBER_OF_ROWS_IN_AREA: usize = 3;

    fn total_number_of_cells() -> (n: usize) {
        Self::NUMBER_OF_COLS * Self::NUMBER_OF_ROWS
    }

    fn number_cells_in_area() -> (n: usize) {
        Self::NUMBER_OF_COLS_IN_AREA * Self::NUMBER_OF_ROWS_IN_AREA
    }

    fn number_of_areas() -> (n: usize) {
        (Self::NUMBER_OF_ROWS / Self::NUMBER_OF_ROWS_IN_AREA) * (Self::NUMBER_OF_COLS
            / Self::NUMBER_OF_COLS_IN_AREA)
    }
}

impl HasCells for Sudoku9x9 {
    type Member = Cell;

    closed spec fn members(&self) -> Seq<Cell> {
        self.cells@
    }

    fn cells(&self) -> (cells: &Vec<Cell>) {
        &self.cells
    }
}

impl HasRows for Sudoku9x9 {
    closed spec fn row_list(&self) -> Seq<Line> {
        self.rows@
    }

    fn rows(&self) -> (rows: &Vec<Line>) {
        &self.rows
    }
}

impl HasColumns for Sudoku9x9 {
    closed spec fn column_list(&self) -> Seq<Line> {
        self.columns@
    }

    fn columns(&self) -> (columns: &Vec<Line>) {
        &self.columns
    }
}

impl HasAreas for Sudoku9x9 {
    closed spec fn area_list(&self) -> Seq<Area> {
        self.areas@
    }

    fn areas(&self) -> (areas: &Vec<Area>) {
        &self.areas
    }
}

impl Solvable for Sudoku9x9 {

}

impl SolveMetrics for Sudoku9x9 {

}

impl SimpleSudoku for Sudoku9x9 {
    fn create_sudoku(
        cells: Vec<Cell>,
        rows: Vec<Line>,
        columns: Vec<Line>,
        areas: Vec<Area>,
    ) -> (sudoku: Sudoku9x9) {
        Sudoku9x9 { cells, rows, columns, areas }
    }
}

} // verus!
