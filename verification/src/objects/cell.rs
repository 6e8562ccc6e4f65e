use crate::objects::traits::Candidate;
use crate::render::{render_cell, solved_cell_text};
use crate::traits::Identifiable;
use vstd::prelude::*;
use vstd::std_specs::cmp::PartialEqSpecImpl;

verus! {

/// Every digit a cell may hold, in ascending order.
pub open spec fn full_range() -> Seq<u8> {
    seq![1u8, 2u8, 3u8, 4u8, 5u8, 6u8, 7u8, 8u8, 9u8]
}

/// The candidates that go with a value: the value alone, or every digit.
pub open spec fn initial_candidates(value: Option<u8>) -> Seq<u8> {
    match value {
        Some(v) => seq![v],
        None => full_range(),
    }
}

/// `candidates` with every digit of `removed` struck out, order kept.
pub open spec fn without(candidates: Seq<u8>, removed: Set<u8>) -> Seq<u8> {
    candidates.filter(|digit: u8| !removed.contains(digit))
}

/// What a cell is, as contracts see it.
pub struct CellView {
    pub id: usize,
    pub value: Option<u8>,
    pub candidates: Seq<u8>,
    pub row: Option<usize>,
    pub column: Option<usize>,
    pub area: Option<usize>,
}

impl CellView {
    pub open spec fn is_solved(self) -> bool {
        self.value is Some
    }

    /// A solved cell has exactly its value as candidate.
    pub open spec fn wf(self) -> bool {
        self.value matches Some(v) ==> self.candidates == seq![v]
    }

    /// The cell after an attempt to assign `value`: the first assignment wins.
    pub open spec fn assigned(self, value: Option<u8>) -> CellView {
        if self.value is Some {
            self
        } else {
            CellView {
                value,
                candidates: initial_candidates(value),
                ..self
            }
        }
    }

    /// The cell after the digits of `removed` are struck from its candidates.
    /// A solved cell stays as it is. An unsolved cell loses the digits, and a
    /// single candidate that is left becomes its value.
    pub open spec fn excluded(self, removed: Set<u8>) -> CellView {
        if self.value is Some {
            self
        } else {
            let rest = without(self.candidates, removed);
            CellView {
                candidates: rest,
                value: if rest.len() == 1 {
                    Some(rest[0])
                } else {
                    None
                },
                ..self
            }
        }
    }

    /// Whether striking `removed` solves the cell: it is unsolved and exactly
    /// one candidate is left.
    pub open spec fn settles(self, removed: Set<u8>) -> bool {
        self.value is None && without(self.candidates, removed).len() == 1
    }
}

/// Striking digits keeps the order of those that stay, keeps none of the
/// struck ones and never lengthens the list.
pub proof fn lemma_without(candidates: Seq<u8>, removed: Set<u8>)
    ensures
        without(candidates, removed).len() <= candidates.len(),
        forall|d: u8| #[trigger]
            without(candidates, removed).contains(d) <==> candidates.contains(d)
                && !removed.contains(d),
        removed.is_empty() ==> without(candidates, removed) == candidates,
    decreases candidates.len(),
{
    reveal(Seq::filter);
    let pred = |digit: u8| !removed.contains(digit);
    if candidates.len() > 0 {
        let init = candidates.drop_last();
        let last = candidates.last();
        lemma_without(init, removed);
        let sub = without(init, removed);
        assert forall|d: u8| #[trigger]
            without(candidates, removed).contains(d) <==> candidates.contains(d)
                && !removed.contains(d) by {
            if candidates.contains(d) {
                let i = choose|i: int| 0 <= i < candidates.len() && candidates[i] == d;
                if i < init.len() {
                    assert(init[i] == d);
                    assert(init.contains(d));
                }
            }
            if init.contains(d) {
                let i = choose|i: int| 0 <= i < init.len() && init[i] == d;
                assert(candidates[i] == d);
            }
            if pred(last) {
                let out = sub.push(last);
                assert(out[sub.len() as int] == last);
                if sub.contains(d) {
                    let i = choose|i: int| 0 <= i < sub.len() && sub[i] == d;
                    assert(out[i] == d);
                }
                if out.contains(d) {
                    let i = choose|i: int| 0 <= i < out.len() && out[i] == d;
                    if i < sub.len() {
                        assert(sub[i] == d);
                    }
                }
            }
        }
        if removed.is_empty() {
            assert(sub.push(last) =~= candidates);
        }
    }
}

/// Striking digits of which none is a candidate changes nothing.
pub proof fn lemma_without_strangers(candidates: Seq<u8>, removed: Set<u8>)
    requires
        forall|d: u8| candidates.contains(d) ==> !removed.contains(d),
    ensures
        without(candidates, removed) == candidates,
    decreases candidates.len(),
{
    reveal(Seq::filter);
    if candidates.len() > 0 {
        let init = candidates.drop_last();
        let last = candidates.last();
        assert forall|d: u8| init.contains(d) implies !removed.contains(d) by {
            let i = choose|i: int| 0 <= i < init.len() && init[i] == d;
            assert(candidates[i] == d);
        }
        lemma_without_strangers(init, removed);
        assert(candidates[candidates.len() - 1] == last);
        assert(candidates.contains(last));
        assert(init.push(last) =~= candidates);
    }
}

/// Striking digits from a list that holds none twice leaves a list that
/// holds none twice.
pub proof fn lemma_without_no_duplicates(candidates: Seq<u8>, removed: Set<u8>)
    requires
        candidates.no_duplicates(),
    ensures
        without(candidates, removed).no_duplicates(),
    decreases candidates.len(),
{
    reveal(Seq::filter);
    if candidates.len() > 0 {
        let init = candidates.drop_last();
        let last = candidates.last();
        lemma_without_no_duplicates(init, removed);
        lemma_without(init, removed);
        let sub = without(init, removed);
        if sub.contains(last) {
            let i = choose|i: int| 0 <= i < init.len() && init[i] == last;
            assert(candidates[i] == candidates[candidates.len() - 1]);
        }
        if !removed.contains(last) {
            let out = sub.push(last);
            assert forall|a: int, b: int| 0 <= a < out.len() && 0 <= b < out.len()
                && a != b implies out[a]
                != out[b] by {
                if a < sub.len() {
                    assert(sub.contains(out[a]));
                }
                if b < sub.len() {
                    assert(sub.contains(out[b]));
                }
            }
        }
    }
}

/// Striking digits never changes a cell that is solved.
pub proof fn lemma_excluded_keeps_solved(cell: CellView, removed: Set<u8>)
    requires
        cell.is_solved(),
    ensures
        cell.excluded(removed) == cell,
        !cell.settles(removed),
{
}

/// An assignment never changes a cell that is solved.
pub proof fn lemma_assigned_keeps_solved(cell: CellView, value: Option<u8>)
    requires
        cell.is_solved(),
    ensures
        cell.assigned(value) == cell,
{
}

/// Striking digits keeps a cell well formed and never lengthens its list of
/// candidates. The candidates of an unsolved cell are afterwards those it
/// had, without the struck ones.
pub proof fn lemma_excluded_wf(cell: CellView, removed: Set<u8>)
    requires
        cell.wf(),
    ensures
        cell.excluded(removed).wf(),
        cell.excluded(removed).candidates.len() <= cell.candidates.len(),
        !cell.is_solved() ==> cell.excluded(removed).candidates == without(
            cell.candidates,
            removed,
        ),
{
    lemma_without(cell.candidates, removed);
    let rest = without(cell.candidates, removed);
    if cell.value is None && rest.len() == 1 {
        assert(rest =~= seq![rest[0]]);
    }
}

/// One square of the grid: its solved value, if any, the digits it may
/// still take, and the positions of the three groups it belongs to.
#[derive(Debug, Clone)]
pub struct Cell {
    id: usize,
    value: Option<u8>,
    candidates: Vec<u8>,
    row: Option<usize>,
    column: Option<usize>,
    area: Option<usize>,
}

impl View for Cell {
    type V = CellView;

    closed spec fn view(&self) -> CellView {
        CellView {
            id: self.id,
            value: self.value,
            candidates: self.candidates@,
            row: self.row,
            column: self.column,
            area: self.area,
        }
    }
}

/// Whether `digit` occurs in `list`.
pub fn list_contains(list: &Vec<u8>, digit: u8) -> (found: bool)
    ensures
        found == list@.contains(digit),
{
    let mut i: usize = 0;
    while i < list.len()
        invariant
            i <= list.len(),
            forall|j: int| 0 <= j < i ==> list@[j] != digit,
        decreases list.len() - i,
    {
        if list[i] == digit {
            return true;
        }
        i += 1;
    }
    false
}

/// The digits of `candidates` that do not occur in `removed`, order kept.
pub fn strike(candidates: &Vec<u8>, removed: &Vec<u8>) -> (rest: Vec<u8>)
    ensures
        rest@ == without(candidates@, removed@.to_set()),
{
    let ghost gone = removed@.to_set();
    let mut rest: Vec<u8> = Vec::new();
    let mut i: usize = 0;
    proof {
        reveal(Seq::filter);
        assert(candidates@.subrange(0, 0) =~= Seq::<u8>::empty());
    }
    while i < candidates.len()
        invariant
            i <= candidates.len(),
            gone == removed@.to_set(),
            rest@ == without(candidates@.subrange(0, i as int), gone),
        decreases candidates.len() - i,
    {
        let digit = candidates[i];
        let struck = list_contains(removed, digit);
        proof {
            reveal(Seq::filter);
            let next = candidates@.subrange(0, i + 1);
            assert(next.drop_last() =~= candidates@.subrange(0, i as int));
            assert(next.last() == digit);
        }
        if !struck {
            rest.push(digit);
        }
        i += 1;
    }
    assert(candidates@.subrange(0, i as int) =~= candidates@);
    rest
}

/// The candidates that go with a value: the value alone, or every digit.
pub fn candidates_for(value: Option<u8>) -> (digits: Vec<u8>)
    ensures
        digits@ == initial_candidates(value),
{
    let mut digits: Vec<u8> = Vec::new();
    match value {
        Some(v) => {
            digits.push(v);
            assert(digits@ =~= seq![v]);
        },
        None => {
            let mut digit: u8 = 1;
            while digit <= 9
                invariant
                    1 <= digit <= 10,
                    digits@ == full_range().subrange(0, digit - 1),
                decreases 10 - digit,
            {
                digits.push(digit);
                assert(digits@ =~= full_range().subrange(0, digit as int));
                digit += 1;
            }
            assert(digits@ =~= full_range());
        },
    }
    digits
}

impl Cell {
    /// A cell with the given identifier, value and candidates, and no group
    /// yet.
    pub fn new(id: usize, value: Option<u8>, variants: Vec<u8>) -> (cell: Cell)
        ensures
            cell@ == (CellView {
                id,
                value,
                candidates: variants@,
                row: None,
                column: None,
                area: None,
            }),
    {
        Cell { id, value, candidates: variants, row: None, column: None, area: None }
    }

    /// Assigns `value` unless the cell is solved already; the candidates
    /// collapse to the value, or go back to the full range for `None`.
    pub fn set_value(&mut self, value: Option<u8>)
        ensures
            final(self)@ == old(self)@.assigned(value),
            old(self)@.value is Some ==> final(self)@ == old(self)@,
            old(self)@.wf() ==> final(self)@.wf(),
    {
        if self.value.is_some() {
            return ;
        }
        self.value = value;
        self.candidates = candidates_for(value);
    }

    /// Records the position of the row that holds the cell.
    pub fn set_row(&mut self, row: usize)
        ensures
            final(self)@ == (CellView { row: Some(row), ..old(self)@ }),
    {
        self.row = Some(row);
    }

    /// Records the position of the column that holds the cell.
    pub fn set_column(&mut self, column: usize)
        ensures
            final(self)@ == (CellView { column: Some(column), ..old(self)@ }),
    {
        self.column = Some(column);
    }

    /// Records the position of the block that holds the cell.
    pub fn set_area(&mut self, area: usize)
        ensures
            final(self)@ == (CellView { area: Some(area), ..old(self)@ }),
    {
        self.area = Some(area);
    }

    pub fn get_value(&self) -> (value: Option<u8>)
        ensures
            value == self@.value,
    {
        self.value
    }

    pub fn is_solved(&self) -> (solved: bool)
        ensures
            solved == self@.is_solved(),
    {
        self.value.is_some()
    }

    /// Strikes the digits of `values` from the candidates of an unsolved
    /// cell. Where exactly one candidate is left, it becomes the value and
    /// the result is `true`. A solved cell stays as it is, and the result is
    /// `false`.
    pub fn exclude_values<T: Candidate>(&mut self, values: T) -> (settled: bool)
        ensures
            final(self)@ == old(self)@.excluded(values.digits()),
            settled == old(self)@.settles(values.digits()),
            old(self)@.value is Some ==> final(self)@ == old(self)@ && !settled,
            old(self)@.wf() ==> final(self)@.wf(),
    {
        if self.value.is_some() {
            return false;
        }
        proof {
            lemma_excluded_wf(old(self)@, values.digits());
        }
        let items = values.to_candidates();
        self.candidates = strike(&self.candidates, &items);
        if self.candidates.len() == 1 {
            self.value = Some(self.candidates[0]);
            true
        } else {
            false
        }
    }

    /// Strikes one digit from the candidates, as `exclude_values` does.
    pub fn exclude_value(&mut self, value: u8) -> (settled: bool)
        ensures
            final(self)@ == old(self)@.excluded(set![value]),
            settled == old(self)@.settles(set![value]),
            old(self)@.value is Some ==> final(self)@ == old(self)@ && !settled,
            old(self)@.wf() ==> final(self)@.wf(),
    {
        self.exclude_values(value)
    }

    /// The cell as text: its value alone, or in the long form its number
    /// and its value. Only a solved cell has a text.
    pub fn to_text(&self, long: bool) -> (text: String)
        requires
            self@.value is Some,
        ensures
            text@ == solved_cell_text(self@.id as nat, self@.value->0, long),
    {
        render_cell(self, long)
    }

    /// The digits the cell may still take.
    pub fn variants(&self) -> (digits: Vec<u8>)
        ensures
            digits@ == self@.candidates,
    {
        self.candidates.to_candidates()
    }

    /// Position of the cell's row among the rows of its grid, once installed.
    pub fn row(&self) -> (row: Option<usize>)
        ensures
            row == self@.row,
    {
        self.row
    }

    /// Position of the cell's column among the columns of its grid, once
    /// installed.
    pub fn column(&self) -> (column: Option<usize>)
        ensures
            column == self@.column,
    {
        self.column
    }

    /// Position of the cell's block among the blocks of its grid, once
    /// installed.
    pub fn area(&self) -> (area: Option<usize>)
        ensures
            area == self@.area,
    {
        self.area
    }
}

impl Identifiable for Cell {
    open spec fn ident(&self) -> usize {
        self@.id
    }

    fn id(&self) -> (id: usize) {
        self.id
    }
}

impl PartialEq for Cell {
    /// Two cells are equal when they hold the same value, whatever their
    /// candidates.
    fn eq(&self, other: &Cell) -> (same: bool) {
        match (self.value, other.value) {
            (Some(a), Some(b)) => a == b,
            (None, None) => true,
            _ => false,
        }
    }
}

impl PartialEqSpecImpl for Cell {
    open spec fn obeys_eq_spec() -> bool {
        true
    }

    open spec fn eq_spec(&self, other: &Cell) -> bool {
        self@.value == other@.value
    }
}

} // verus!
