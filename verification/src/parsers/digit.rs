use vstd::prelude::*;

verus! {

/// A number as a cell: a digit from 1 to 9 is a given, any other number an
/// unknown cell.
pub open spec fn digit_cell(n: int) -> Option<u8> {
    if 1 <= n <= 9 {
        Some(n as u8)
    } else {
        None
    }
}

/// A number as a cell: a digit from 1 to 9 is a given, any other number an
/// unknown cell.
pub fn cell_of_number(n: u64) -> (cell: Option<u8>)
    ensures
        cell == digit_cell(n as int),
{
    if 1 <= n && n <= 9 {
        Some(n as u8)
    } else {
        None
    }
}

} // verus!
