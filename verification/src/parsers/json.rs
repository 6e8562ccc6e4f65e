use crate::parsers::digit::{cell_of_number, digit_cell};
use vstd::prelude::*;

verus! {

/// Why a text is no table.
#[derive(Debug, Clone, Copy, PartialEq, Eq, Structural)]
pub enum JsonError {
    /// The text is no JSON array of arrays of `null` and whole numbers from
    /// 0 up.
    NotATable,
}

/// The error of `serde_json`, carried through as it comes.
#[verifier::external_type_specification]
#[verifier::external_body]
pub struct ExJsonFailure(serde_json::Error);

/// What `serde_json::from_str` reads from a text as rows of optional whole
/// numbers: `None` where it reports an error.
pub uninterp spec fn json_numbers(text: Seq<char>) -> Option<Seq<Seq<Option<u64>>>>;

/// Rows of numbers as contracts see them.
pub open spec fn numbers_view(rows: Seq<Vec<Option<u64>>>) -> Seq<Seq<Option<u64>>> {
    rows.map_values(|row: Vec<Option<u64>>| row@)
}

/// Calls `serde_json::from_str` for rows of optional `u64`. Trusted: the
/// result is what the name `json_numbers` stands for, an error of the
/// outside crate where that is `None`.
#[verifier::external_body]
fn read_numbers(text: &str) -> (numbers: Result<Vec<Vec<Option<u64>>>, serde_json::Error>)
    ensures
        match numbers {
            Ok(rows) => json_numbers(text@) == Some(numbers_view(rows@)),
            Err(_) => json_numbers(text@) is None,
        },
{
    serde_json::from_str(text)
}

/// A number as a cell: `null`, 0 and any number that is no digit from 1 to
/// 9 are unknown cells.
pub open spec fn known(cell: Option<u64>) -> Option<u8> {
    match cell {
        Some(n) => digit_cell(n as int),
        None => None,
    }
}

/// A row of numbers as cells.
pub open spec fn known_row(row: Seq<Option<u64>>) -> Seq<Option<u8>> {
    row.map_values(|cell: Option<u64>| known(cell))
}

/// Rows of numbers as rows of cells.
pub open spec fn known_rows(rows: Seq<Seq<Option<u64>>>) -> Seq<Seq<Option<u8>>> {
    rows.map_values(|row: Seq<Option<u64>>| known_row(row))
}

/// The table of the same shape as `numbers`: a digit from 1 to 9 is a
/// given, and `None`, 0 and every other number are unknown cells.
pub fn table_of_numbers(numbers: &Vec<Vec<Option<u64>>>) -> (table: Vec<Vec<Option<u8>>>)
    ensures
        table@.map_values(|row: Vec<Option<u8>>| row@) == known_rows(numbers_view(numbers@)),
{
    let mut table: Vec<Vec<Option<u8>>> = Vec::new();
    let mut r: usize = 0;
    while r < numbers.len()
        invariant
            r <= numbers.len(),
            table@.len() == r,
            forall|q: int| 0 <= q < r ==> (#[trigger] table@[q])@ == known_row(numbers@[q]@),
        decreases numbers.len() - r,
    {
        let source = &numbers[r];
        let mut row: Vec<Option<u8>> = Vec::new();
        let mut c: usize = 0;
        while c < source.len()
            invariant
                c <= source.len(),
                row@.len() == c,
                forall|j: int| 0 <= j < c ==> #[trigger] row@[j] == known(source@[j]),
            decreases source.len() - c,
        {
            let cell = match source[c] {
                Some(n) => cell_of_number(n),
                None => None,
            };
            row.push(cell);
            c += 1;
        }
        assert(row@ =~= known_row(source@));
        table.push(row);
        r += 1;
    }
    assert(table@.map_values(|row: Vec<Option<u8>>| row@) =~= known_rows(numbers_view(numbers@)));
    table
}

/// The table that a JSON text stands for: an array of arrays in which a
/// digit from 1 to 9 is a given, and `null`, 0 and every other whole number
/// from 0 up are unknown cells.
pub fn parse_json(text: &str) -> (parsed: Result<Vec<Vec<Option<u8>>>, JsonError>)
    ensures
        match parsed {
            Ok(table) => json_numbers(text@) matches Some(numbers) && table@.map_values(
                |row: Vec<Option<u8>>| row@,
            ) == known_rows(numbers),
            Err(JsonError::NotATable) => json_numbers(text@) is None,
        },
{
    match read_numbers(text) {
        Ok(numbers) => Ok(table_of_numbers(&numbers)),
        Err(_) => Err(JsonError::NotATable),
    }
}

} // verus!
