use crate::objects::cell::Cell;
use crate::traits::Identifiable;
use vstd::prelude::*;
use vstd::string::StringExecFns;

verus! {

/// The character of a digit from 0 to 9.
pub open spec fn digit_char(d: int) -> char {
    if d == 0 {
        '0'
    } else if d == 1 {
        '1'
    } else if d == 2 {
        '2'
    } else if d == 3 {
        '3'
    } else if d == 4 {
        '4'
    } else if d == 5 {
        '5'
    } else if d == 6 {
        '6'
    } else if d == 7 {
        '7'
    } else if d == 8 {
        '8'
    } else {
        '9'
    }
}

/// A number in base ten, without leading zeros.
pub open spec fn number_text(n: nat) -> Seq<char>
    decreases n,
{
    if n < 10 {
        seq![digit_char(n as int)]
    } else {
        number_text(n / 10).push(digit_char(n as int % 10))
    }
}

/// A cell as text: its value, or `*` for an unsolved cell, and a blank.
pub open spec fn cell_text(value: Option<u8>) -> Seq<char> {
    match value {
        Some(v) => number_text(v as nat).push(' '),
        None => seq!['*', ' '],
    }
}

/// The bar that stands before the fourth and the seventh cell of a row.
pub open spec fn column_bar(col: int) -> Seq<char> {
    if col == 3 || col == 6 {
        seq!['|', ' ']
    } else {
        Seq::empty()
    }
}

/// The first `cols` cells of row `row` as text.
pub open spec fn row_text(values: Seq<Option<u8>>, row: int, cols: nat) -> Seq<char>
    decreases cols,
{
    if cols == 0 {
        Seq::empty()
    } else {
        row_text(values, row, (cols - 1) as nat) + column_bar(cols - 1) + cell_text(
            values[row * 9 + cols - 1],
        )
    }
}

/// The line that parts the blocks.
pub open spec fn rule_line() -> Seq<char> {
    seq![
        '-',
        '-',
        '-',
        '-',
        '-',
        '-',
        '+',
        '-',
        '-',
        '-',
        '-',
        '-',
        '-',
        '-',
        '+',
        '-',
        '-',
        '-',
        '-',
        '-',
        '-',
        '\n',
    ]
}

/// The line that stands before the fourth and the seventh row.
pub open spec fn row_bar(row: int) -> Seq<char> {
    if row == 3 || row == 6 {
        rule_line()
    } else {
        Seq::empty()
    }
}

/// An empty line and the first `rows` rows as text.
pub open spec fn grid_text_upto(values: Seq<Option<u8>>, rows: nat) -> Seq<char>
    decreases rows,
{
    if rows == 0 {
        seq!['\n']
    } else {
        grid_text_upto(values, (rows - 1) as nat) + row_bar(rows - 1) + row_text(
            values,
            rows - 1,
            9,
        ).push('\n')
    }
}

/// The grid as text: an empty line, then nine lines of nine cells, a bar
/// between the blocks of a line and a line of dashes between the blocks of
/// rows.
pub open spec fn grid_text(values: Seq<Option<u8>>) -> Seq<char> {
    grid_text_upto(values, 9)
}

/// The text of a digit from 0 to 9.
pub fn digit_str(d: u8) -> (text: &'static str)
    requires
        d <= 9,
    ensures
        text@ == seq![digit_char(d as int)],
{
    proof {
        reveal_strlit("0");
        reveal_strlit("1");
        reveal_strlit("2");
        reveal_strlit("3");
        reveal_strlit("4");
        reveal_strlit("5");
        reveal_strlit("6");
        reveal_strlit("7");
        reveal_strlit("8");
        reveal_strlit("9");
    }
    let text = if d == 0 {
        "0"
    } else if d == 1 {
        "1"
    } else if d == 2 {
        "2"
    } else if d == 3 {
        "3"
    } else if d == 4 {
        "4"
    } else if d == 5 {
        "5"
    } else if d == 6 {
        "6"
    } else if d == 7 {
        "7"
    } else if d == 8 {
        "8"
    } else {
        "9"
    };
    assert(text@ =~= seq![digit_char(d as int)]);
    text
}

/// Appends a number in base ten.
pub fn push_number(text: &mut String, n: usize)
    ensures
        final(text)@ == old(text)@ + number_text(n as nat),
    decreases n,
{
    if n >= 10 {
        push_number(text, n / 10);
    }
    text.append(digit_str((n % 10) as u8));
    assert(text@ =~= old(text)@ + number_text(n as nat));
}

/// Appends a cell: its value, or `*` for an unsolved cell, and a blank.
pub fn push_cell(text: &mut String, value: Option<u8>)
    ensures
        final(text)@ == old(text)@ + cell_text(value),
{
    proof {
        reveal_strlit("* ");
        reveal_strlit(" ");
    }
    match value {
        Some(val) => {
            push_number(text, val as usize);
            text.append(" ");
        },
        None => {
            text.append("* ");
        },
    }
    assert(text@ =~= old(text)@ + cell_text(value));
}

/// The values along `members`, each but the first with a blank before it.
pub open spec fn values_text(values: Seq<Option<u8>>, n: nat) -> Seq<char>
    decreases n,
{
    if n == 0 {
        Seq::empty()
    } else {
        let head = values_text(values, (n - 1) as nat);
        let gap = if n == 1 {
            Seq::<char>::empty()
        } else {
            seq![' ']
        };
        head + gap + match values[n - 1] {
            Some(v) => number_text(v as nat),
            None => seq!['*'],
        }
    }
}

/// A line as text: `Row` or `Col`, a dash, the number of the line, and in
/// square brackets the values of its cells, `*` for an unsolved cell.
pub open spec fn line_text(row: bool, id: nat, values: Seq<Option<u8>>) -> Seq<char> {
    (if row {
        seq!['R', 'o', 'w', '-']
    } else {
        seq!['C', 'o', 'l', '-']
    }) + number_text(id) + seq![' ', '['] + values_text(values, values.len()) + seq![']']
}

/// A line as text: `Row` or `Col`, a dash, the number of the line, and in
/// square brackets the values of the cells that `members` points at, `*`
/// for an unsolved cell.
pub fn render_line(row: bool, id: usize, members: &Vec<usize>, cells: &Vec<Cell>) -> (text: String)
    requires
        forall|k: int| 0 <= k < members@.len() ==> members@[k] < cells@.len(),
    ensures
        text@ == line_text(
            row,
            id as nat,
            Seq::new(members@.len(), |k: int| cells@[members@[k] as int]@.value),
        ),
{
    let ghost values = Seq::new(members@.len(), |k: int| cells@[members@[k] as int]@.value);
    let mut text = String::new();
    proof {
        reveal_strlit("Row-");
        reveal_strlit("Col-");
        reveal_strlit(" [");
    }
    if row {
        text.append("Row-");
    } else {
        text.append("Col-");
    }
    push_number(&mut text, id);
    text.append(" [");
    let ghost head = text@;
    assert(head =~= (if row {
        seq!['R', 'o', 'w', '-']
    } else {
        seq!['C', 'o', 'l', '-']
    }) + number_text(id as nat) + seq![' ', '[']);
    let mut k: usize = 0;
    assert(text@ =~= head + values_text(values, 0));
    while k < members.len()
        invariant
            k <= members.len(),
            forall|j: int| 0 <= j < members@.len() ==> members@[j] < cells@.len(),
            values == Seq::new(members@.len(), |j: int| cells@[members@[j] as int]@.value),
            text@ == head + values_text(values, k as nat),
        decreases members.len() - k,
    {
        proof {
            reveal_strlit(" ");
            reveal_strlit("*");
        }
        let ghost before = text@;
        if k > 0 {
            text.append(" ");
        }
        let value = cells[members[k]].get_value();
        assert(value == values[k as int]);
        match value {
            Some(val) => {
                push_number(&mut text, val as usize);
            },
            None => {
                text.append("*");
            },
        }
        k += 1;
        assert(text@ =~= head + values_text(values, k as nat));
    }
    proof {
        reveal_strlit("]");
    }
    text.append("]");
    text
}

/// The first `n` numbers of `ids`, each but the first with a comma and a
/// blank before it.
pub open spec fn ids_joined(ids: Seq<usize>, n: nat) -> Seq<char>
    decreases n,
{
    if n == 0 {
        Seq::empty()
    } else {
        let gap = if n == 1 {
            Seq::<char>::empty()
        } else {
            seq![',', ' ']
        };
        ids_joined(ids, (n - 1) as nat) + gap + number_text(ids[n - 1] as nat)
    }
}

/// A group as a list of numbers: the number of the group, and in square
/// brackets the numbers of its cells.
pub open spec fn ids_text(id: nat, ids: Seq<usize>) -> Seq<char> {
    number_text(id) + seq![' ', '['] + ids_joined(ids, ids.len()) + seq![']']
}

/// A group as a list of numbers: the number of the group, and in square
/// brackets the numbers of the cells that `members` points at.
pub fn render_ids(id: usize, members: &Vec<usize>, cells: &Vec<Cell>) -> (text: String)
    requires
        forall|k: int| 0 <= k < members@.len() ==> members@[k] < cells@.len(),
    ensures
        text@ == ids_text(
            id as nat,
            Seq::new(members@.len(), |k: int| cells@[members@[k] as int]@.id),
        ),
{
    let ghost ids = Seq::new(members@.len(), |k: int| cells@[members@[k] as int]@.id);
    let mut text = String::new();
    proof {
        reveal_strlit(" [");
    }
    push_number(&mut text, id);
    text.append(" [");
    let ghost head = text@;
    assert(head =~= number_text(id as nat) + seq![' ', '[']);
    let mut k: usize = 0;
    assert(text@ =~= head + ids_joined(ids, 0));
    while k < members.len()
        invariant
            k <= members.len(),
            forall|j: int| 0 <= j < members@.len() ==> members@[j] < cells@.len(),
            ids == Seq::new(members@.len(), |j: int| cells@[members@[j] as int]@.id),
            text@ == head + ids_joined(ids, k as nat),
        decreases members.len() - k,
    {
        proof {
            reveal_strlit(", ");
        }
        if k > 0 {
            text.append(", ");
        }
        let cell_id = cells[members[k]].id();
        assert(cell_id == ids[k as int]);
        push_number(&mut text, cell_id);
        k += 1;
        assert(text@ =~= head + ids_joined(ids, k as nat));
    }
    proof {
        reveal_strlit("]");
    }
    text.append("]");
    text
}

/// The blanks behind a number in a table of numbers: two behind a single
/// digit, else one.
pub open spec fn id_padding(id: nat) -> Seq<char> {
    if id < 10 {
        seq![' ', ' ']
    } else {
        seq![' ']
    }
}

/// The numbers of the first `n` cells, nine to a line.
pub open spec fn cell_ids_upto(ids: Seq<usize>, n: nat) -> Seq<char>
    decreases n,
{
    if n == 0 {
        Seq::empty()
    } else {
        let idx = n - 1;
        let fold = if idx % 9 == 0 && idx != 0 {
            seq!['\n']
        } else {
            Seq::<char>::empty()
        };
        cell_ids_upto(ids, idx as nat) + fold + number_text(ids[idx] as nat) + id_padding(
            ids[idx] as nat,
        )
    }
}

/// The numbers of all cells, nine to a line, each line closed.
pub open spec fn cell_ids_text(ids: Seq<usize>) -> Seq<char> {
    cell_ids_upto(ids, ids.len()).push('\n')
}

/// The numbers of the cells as a table, nine to a line.
pub fn render_cell_ids(cells: &Vec<Cell>) -> (text: String)
    ensures
        text@ == cell_ids_text(Seq::new(cells@.len(), |i: int| cells@[i]@.id)),
{
    let ghost ids = Seq::new(cells@.len(), |i: int| cells@[i]@.id);
    let mut text = String::new();
    let mut idx: usize = 0;
    assert(text@ =~= cell_ids_upto(ids, 0));
    while idx < cells.len()
        invariant
            idx <= cells.len(),
            ids == Seq::new(cells@.len(), |i: int| cells@[i]@.id),
            text@ == cell_ids_upto(ids, idx as nat),
        decreases cells.len() - idx,
    {
        proof {
            reveal_strlit("\n");
            reveal_strlit("  ");
            reveal_strlit(" ");
        }
        let ghost before = text@;
        if idx % 9 == 0 && idx != 0 {
            text.append("\n");
        }
        let cell_id = cells[idx].id();
        assert(cell_id == ids[idx as int]);
        push_number(&mut text, cell_id);
        if cell_id < 10 {
            text.append("  ");
        } else {
            text.append(" ");
        }
        idx += 1;
        assert(text@ =~= cell_ids_upto(ids, idx as nat));
    }
    proof {
        reveal_strlit("\n");
    }
    text.append("\n");
    text
}

/// A solved cell as text: its value alone, or in the long form its number
/// and its value.
pub open spec fn solved_cell_text(id: nat, value: u8, long: bool) -> Seq<char> {
    if long {
        seq!['C', 'e', 'l', 'l', ' ', '{', 'i', 'd', ':', ' '] + number_text(id) + seq![
            ',',
            ' ',
            'v',
            'a',
            'l',
            'u',
            'e',
            ':',
            ' ',
        ] + number_text(value as nat) + seq!['}']
    } else {
        number_text(value as nat)
    }
}

/// A solved cell as text: its value alone, or in the long form its number
/// and its value.
pub fn render_cell(cell: &Cell, long: bool) -> (text: String)
    requires
        cell@.value is Some,
    ensures
        text@ == solved_cell_text(cell@.id as nat, cell@.value->0, long),
{
    let mut text = String::new();
    let value = match cell.get_value() {
        Some(value) => value,
        None => 0,
    };
    if long {
        proof {
            reveal_strlit("Cell {id: ");
            reveal_strlit(", value: ");
            reveal_strlit("}");
        }
        text.append("Cell {id: ");
        push_number(&mut text, cell.id());
        text.append(", value: ");
        push_number(&mut text, value as usize);
        text.append("}");
        assert(text@ =~= solved_cell_text(cell@.id as nat, value, long));
    } else {
        push_number(&mut text, value as usize);
        assert(text@ =~= solved_cell_text(cell@.id as nat, value, long));
    }
    text
}

/// The values of `cells` as text: an empty line, then nine lines of nine
/// cells, blocks parted by bars and by lines of dashes, `*` for an
/// unsolved cell.
pub fn render_grid(cells: &Vec<Cell>) -> (text: String)
    requires
        cells@.len() == 81,
    ensures
        text@ == grid_text(Seq::new(81, |i: int| cells@[i]@.value)),
{
    let ghost values = Seq::new(81, |i: int| cells@[i]@.value);
    let mut text = String::new();
    proof {
        reveal_strlit("\n");
        reveal_strlit("| ");
        reveal_strlit("------+-------+------\n");
    }
    text.append("\n");
    assert(text@ =~= grid_text_upto(values, 0));
    let mut row: usize = 0;
    while row < 9
        invariant
            row <= 9,
            cells@.len() == 81,
            values == Seq::new(81, |i: int| cells@[i]@.value),
            text@ == grid_text_upto(values, row as nat),
        decreases 9 - row,
    {
        let ghost head = text@;
        proof {
            reveal_strlit("\n");
            reveal_strlit("------+-------+------\n");
        }
        if row % 3 == 0 && row != 0 {
            text.append("------+-------+------\n");
            assert(text@ =~= head + rule_line());
        }
        assert(text@ =~= head + row_bar(row as int));
        let ghost start = text@;
        let mut col: usize = 0;
        assert(text@ =~= start + row_text(values, row as int, 0));
        while col < 9
            invariant
                row < 9,
                col <= 9,
                cells@.len() == 81,
                values == Seq::new(81, |i: int| cells@[i]@.value),
                text@ == start + row_text(values, row as int, col as nat),
            decreases 9 - col,
        {
            let ghost before = text@;
            proof {
                reveal_strlit("| ");
            }
            if col % 3 == 0 && col != 0 {
                text.append("| ");
            }
            assert(text@ =~= before + column_bar(col as int));
            let idx = row * 9 + col;
            let value = cells[idx].get_value();
            assert(value == values[row * 9 + col]);
            push_cell(&mut text, value);
            col += 1;
            assert(text@ =~= start + row_text(values, row as int, col as nat));
        }
        text.append("\n");
        row += 1;
        assert(text@ =~= head + row_bar(row - 1) + row_text(values, row - 1, 9).push('\n'));
    }
    text
}

} // verus!
