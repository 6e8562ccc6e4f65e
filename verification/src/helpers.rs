use crate::objects::cell::{Cell, CellView};
use std::collections::HashSet;
use vstd::prelude::*;

verus! {

broadcast use vstd::std_specs::hash::group_hash_axioms;

/// The cells of an arena as contracts see them.
pub open spec fn board_of(cells: Seq<Cell>) -> Seq<CellView> {
    cells.map_values(|cell: Cell| cell@)
}

/// Whether every member is a position of an arena of `size` cells.
pub open spec fn members_within(members: Seq<usize>, size: nat) -> bool {
    forall|k: int| 0 <= k < members.len() ==> members[k] < size
}

/// The values of the cells that `members` points at, in the members' order.
pub open spec fn member_values(members: Seq<usize>, board: Seq<CellView>) -> Seq<Option<u8>> {
    Seq::new(members.len(), |k: int| board[members[k] as int].value)
}

/// Whether two entries hold the same present value.
pub open spec fn has_duplicates(values: Seq<Option<u8>>) -> bool {
    exists|i: int, j: int|
        0 <= i < j < values.len() && values[i] is Some
            && #[trigger] values[i] == #[trigger] values[j]
}

/// Whether two of the cells that `members` points at hold the same solved
/// value. Unsolved cells never count.
pub fn has_duplicate_values(members: &Vec<usize>, cells: &Vec<Cell>) -> (found: bool)
    requires
        members_within(members@, cells@.len()),
    ensures
        found == has_duplicates(member_values(members@, board_of(cells@))),
{
    let ghost values = member_values(members@, board_of(cells@));
    let mut seen_values: HashSet<u8> = HashSet::new();
    let mut k: usize = 0;
    while k < members.len()
        invariant
            k <= members.len(),
            members_within(members@, cells@.len()),
            values == member_values(members@, board_of(cells@)),
            forall|d: u8|
                seen_values@.contains(d) <==> exists|j: int|
                    0 <= j < k && #[trigger] values[j] == Some(d),
            forall|i: int, j: int|
                0 <= i < j < k && values[i] is Some
                    ==> #[trigger] values[i] != #[trigger] values[j],
        decreases members.len() - k,
    {
        let cell = &cells[members[k]];
        assert(values[k as int] == cell@.value);
        if let Some(value) = cell.get_value() {
            if !seen_values.insert(value) {
                proof {
                    let j = choose|j: int| 0 <= j < k && #[trigger] values[j] == Some(value);
                    assert(values[j] == values[k as int]);
                }
                return true;
            }
        }
        k += 1;
    }
    false
}

} // verus!
