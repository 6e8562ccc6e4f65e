use vstd::prelude::*;

verus! {

/// Number of rows, of columns, of blocks, and of cells in each of them.
pub const LENGTH: usize = 9;

/// Number of rows of a block, and of its columns.
pub const BLOCK: usize = 3;

/// The row that holds position `i`.
pub open spec fn row_of(i: int) -> int {
    i / 9
}

/// The column that holds position `i`.
pub open spec fn column_of(i: int) -> int {
    i % 9
}

/// The block that holds position `i`: blocks are numbered row by row.
pub open spec fn area_of(i: int) -> int {
    (row_of(i) / 3) * 3 + column_of(i) / 3
}

/// Position of the `k`-th cell of row `r`.
pub open spec fn row_member(r: int, k: int) -> int {
    r * 9 + k
}

/// Position of the `k`-th cell of column `c`.
pub open spec fn column_member(c: int, k: int) -> int {
    k * 9 + c
}

/// Position of the `k`-th cell of block `a`, counted row by row inside the
/// block.
pub open spec fn area_member(a: int, k: int) -> int {
    ((a / 3) * 3 + k / 3) * 9 + (a % 3) * 3 + k % 3
}

/// The positions of row `r`, left to right.
pub open spec fn row_members(r: int) -> Seq<usize> {
    Seq::new(9, |k: int| row_member(r, k) as usize)
}

/// The positions of column `c`, top to bottom.
pub open spec fn column_members(c: int) -> Seq<usize> {
    Seq::new(9, |k: int| column_member(c, k) as usize)
}

/// The positions of block `a`, row by row.
pub open spec fn area_members(a: int) -> Seq<usize> {
    Seq::new(9, |k: int| area_member(a, k) as usize)
}

/// The positions of group `g`: groups 0 to 8 are the rows, 9 to 17 the
/// columns, 18 to 26 the blocks.
pub open spec fn group_members(g: int) -> Seq<usize> {
    if g < 9 {
        row_members(g)
    } else if g < 18 {
        column_members(g - 9)
    } else {
        area_members(g - 18)
    }
}

/// Whether group `g` holds position `i`.
pub open spec fn group_holds(g: int, i: int) -> bool {
    if g < 9 {
        row_of(i) == g
    } else if g < 18 {
        column_of(i) == g - 9
    } else {
        area_of(i) == g - 18
    }
}

/// The place of position `i` inside group `g`, where the group holds it.
pub open spec fn place_in_group(g: int, i: int) -> int {
    if g < 9 {
        column_of(i)
    } else if g < 18 {
        row_of(i)
    } else {
        (row_of(i) % 3) * 3 + column_of(i) % 3
    }
}

/// Every member of a group is a position of the grid that the group holds,
/// at its own place.
pub proof fn lemma_group_member(g: int, k: int)
    requires
        0 <= g < 27,
        0 <= k < 9,
    ensures
        group_members(g).len() == 9,
        0 <= group_members(g)[k] < 81,
        group_holds(g, group_members(g)[k] as int),
        place_in_group(g, group_members(g)[k] as int) == k,
{
    if g < 9 {
        let i = row_member(g, k);
        assert(0 <= i < 81);
        assert(i / 9 == g && i % 9 == k);
    } else if g < 18 {
        let c = g - 9;
        let i = column_member(c, k);
        assert(0 <= i < 81);
        assert(i / 9 == k && i % 9 == c);
    } else {
        let a = g - 18;
        let r = (a / 3) * 3 + k / 3;
        let c = (a % 3) * 3 + k % 3;
        let i = area_member(a, k);
        assert(0 <= r < 9 && 0 <= c < 9);
        assert(i == r * 9 + c);
        assert(i / 9 == r && i % 9 == c);
        assert(r / 3 == a / 3 && c / 3 == a % 3);
        assert(r % 3 == k / 3 && c % 3 == k % 3);
    }
}

/// A position that a group holds is the member at its place, and at no
/// other.
pub proof fn lemma_group_place(g: int, i: int)
    requires
        0 <= g < 27,
        0 <= i < 81,
        group_holds(g, i),
    ensures
        0 <= place_in_group(g, i) < 9,
        group_members(g)[place_in_group(g, i)] == i,
        forall|k: int| 0 <= k < 9 && #[trigger] group_members(g)[k] == i
            ==> k == place_in_group(g, i),
{
    let p = place_in_group(g, i);
    if g < 9 {
        assert(row_member(g, p) == i);
    } else if g < 18 {
        assert(column_member(g - 9, p) == i);
    } else {
        let a = g - 18;
        let r = i / 9;
        let c = i % 9;
        assert(a / 3 == r / 3 && a % 3 == c / 3);
        assert(p / 3 == r % 3 && p % 3 == c % 3);
        assert(area_member(a, p) == i);
    }
    assert forall|k: int| 0 <= k < 9 && #[trigger] group_members(g)[k] == i implies k == p by {
        lemma_group_member(g, k);
    }
}

/// A member of a group is held by it: no position sits in two rows, two
/// columns or two blocks.
pub proof fn lemma_member_is_held(g: int, k: int, i: int)
    requires
        0 <= g < 27,
        0 <= k < 9,
        group_members(g)[k] == i,
    ensures
        0 <= i < 81,
        group_holds(g, i),
        place_in_group(g, i) == k,
{
    lemma_group_member(g, k);
}

/// Every position lies in exactly one row, one column and one block: a
/// group lists a position exactly when it holds it, and of each kind of
/// group one holds it.
pub proof fn lemma_partition(i: int, g: int)
    requires
        0 <= i < 81,
        0 <= g < 27,
    ensures
        group_members(g).contains(i as usize) <==> group_holds(g, i),
        group_holds(g, i) <==> g == row_of(i) || g == 9 + column_of(i) || g == 18 + area_of(i),
        0 <= row_of(i) < 9 && 0 <= column_of(i) < 9 && 0 <= area_of(i) < 9,
{
    if group_holds(g, i) {
        lemma_group_place(g, i);
        assert(group_members(g)[place_in_group(g, i)] == i as usize);
    }
    if group_members(g).contains(i as usize) {
        let k = choose|k: int| 0 <= k < group_members(g).len() && group_members(g)[k] == i as usize;
        lemma_group_member(g, k);
    }
}

/// The positions of row `row`, left to right.
pub fn row_positions(row: usize) -> (members: Vec<usize>)
    requires
        row < 9,
    ensures
        members@ == row_members(row as int),
{
    let mut members: Vec<usize> = Vec::new();
    let mut col: usize = 0;
    while col < LENGTH
        invariant
            row < 9,
            col <= 9,
            members@.len() == col,
            forall|k: int| 0 <= k < col ==> members@[k] == row_member(row as int, k),
        decreases 9 - col,
    {
        members.push(row * LENGTH + col);
        col += 1;
    }
    assert(members@ =~= row_members(row as int));
    members
}

/// The positions of column `col`, top to bottom.
pub fn column_positions(col: usize) -> (members: Vec<usize>)
    requires
        col < 9,
    ensures
        members@ == column_members(col as int),
{
    let mut members: Vec<usize> = Vec::new();
    let mut row: usize = 0;
    while row < LENGTH
        invariant
            col < 9,
            row <= 9,
            members@.len() == row,
            forall|k: int| 0 <= k < row ==> members@[k] == column_member(col as int, k),
        decreases 9 - row,
    {
        members.push(row * LENGTH + col);
        row += 1;
    }
    assert(members@ =~= column_members(col as int));
    members
}

/// The positions of block `area`, row by row.
pub fn area_positions(area: usize) -> (members: Vec<usize>)
    requires
        area < 9,
    ensures
        members@ == area_members(area as int),
{
    let area_row = area / BLOCK;
    let area_col = area % BLOCK;
    let mut members: Vec<usize> = Vec::new();
    let mut row: usize = 0;
    while row < BLOCK
        invariant
            area < 9,
            area_row == area / 3,
            area_col == area % 3,
            row <= 3,
            members@.len() == row * 3,
            forall|k: int| 0 <= k < row * 3 ==> members@[k] == area_member(area as int, k),
        decreases 3 - row,
    {
        let mut col: usize = 0;
        while col < BLOCK
            invariant
                area < 9,
                area_row == area / 3,
                area_col == area % 3,
                row < 3,
                col <= 3,
                members@.len() == row * 3 + col,
                forall|k: int| 0 <= k < row * 3 + col
                    ==> members@[k] == area_member(area as int, k),
            decreases 3 - col,
        {
            let r_idx = area_row * BLOCK + row;
            let c_idx = area_col * BLOCK + col;
            let ghost k = row * 3 + col;
            assert(k / 3 == row && k % 3 == col);
            members.push(r_idx * LENGTH + c_idx);
            col += 1;
        }
        row += 1;
    }
    assert(members@ =~= area_members(area as int));
    members
}

/// The positions of group `group`: a row, a column or a block.
pub fn group_positions(group: usize) -> (members: Vec<usize>)
    requires
        group < 27,
    ensures
        members@ == group_members(group as int),
{
    if group < 9 {
        row_positions(group)
    } else if group < 18 {
        column_positions(group - 9)
    } else {
        area_positions(group - 18)
    }
}

/// The row, the column and the block of position `index`.
pub fn groups_of(index: usize) -> (groups: (usize, usize, usize))
    requires
        index < 81,
    ensures
        groups.0 == row_of(index as int),
        groups.1 == column_of(index as int),
        groups.2 == area_of(index as int),
        groups.0 < 9,
        groups.1 < 9,
        groups.2 < 9,
{
    let row = index / LENGTH;
    let col = index % LENGTH;
    let area_row = row / BLOCK;
    let areas_across = LENGTH / BLOCK;
    assert(area_row < 3 && areas_across == 3);
    (row, col, area_row * areas_across + col / BLOCK)
}

} // verus!
