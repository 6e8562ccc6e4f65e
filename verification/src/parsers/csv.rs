use crate::parsers::digit::{cell_of_number, digit_cell};
use vstd::prelude::*;
use vstd::string::StrSliceExecFns;

verus! {

/// What `csv::Reader::records` yields for the bytes of a file read without
/// a header row: for each record in turn its fields, or `None` for a record
/// that the reader reports as an error.
pub uninterp spec fn csv_records(data: Seq<u8>) -> Seq<Option<Seq<Seq<char>>>>;

/// What `char::is_whitespace` says of a character: whether it has the
/// property `White_Space` of Unicode.
pub uninterp spec fn white_space(c: char) -> bool;

/// The fields of a record as contracts see them.
pub open spec fn record_view(record: Option<Vec<String>>) -> Option<Seq<Seq<char>>> {
    match record {
        Some(fields) => Some(fields@.map_values(|field: String| field@)),
        None => None,
    }
}

/// The records of a file as contracts see them.
pub open spec fn records_view(records: Seq<Option<Vec<String>>>) -> Seq<Option<Seq<Seq<char>>>> {
    records.map_values(|record: Option<Vec<String>>| record_view(record))
}

/// Calls `csv::ReaderBuilder::new().has_headers(false).from_reader(data)`
/// and walks `records()` to its end. Trusted: the result is what the name
/// `csv_records` stands for, a record that the reader reports as an error
/// turned into `None`.
#[verifier::external_body]
fn read_records(data: &[u8]) -> (records: Vec<Option<Vec<String>>>)
    ensures
        records_view(records@) == csv_records(data@),
{
    let mut reader = ::csv::ReaderBuilder::new().has_headers(false).from_reader(data);
    reader.records().map(
        |record| record.ok().map(|fields| fields.iter().map(|field| field.to_string()).collect()),
    ).collect()
}

/// Calls `char::is_whitespace`. Trusted: the result is what the name
/// `white_space` stands for.
#[verifier::external_body]
fn is_whitespace(c: char) -> (blank: bool)
    ensures
        blank == white_space(c),
{
    c.is_whitespace()
}

/// How many characters of white space `text` begins with.
pub open spec fn leading_blanks(text: Seq<char>) -> nat
    decreases text.len(),
{
    if text.len() > 0 && white_space(text[0]) {
        1 + leading_blanks(text.drop_first())
    } else {
        0
    }
}

/// How many characters of white space `text` ends with.
pub open spec fn trailing_blanks(text: Seq<char>) -> nat
    decreases text.len(),
{
    if text.len() > 0 && white_space(text.last()) {
        1 + trailing_blanks(text.drop_last())
    } else {
        0
    }
}

/// `text` without the white space that it begins and ends with.
pub open spec fn trim_of(text: Seq<char>) -> Seq<char> {
    let from = leading_blanks(text);
    if from >= text.len() {
        Seq::empty()
    } else {
        text.subrange(from as int, text.len() - trailing_blanks(text))
    }
}

/// A text that begins with `n` characters of white space and goes on with
/// another character, or ends there, begins with exactly `n` of them.
pub proof fn lemma_leading_blanks(text: Seq<char>, n: int)
    requires
        0 <= n <= text.len(),
        forall|j: int| 0 <= j < n ==> white_space(#[trigger] text[j]),
        n < text.len() ==> !white_space(text[n]),
    ensures
        leading_blanks(text) == n,
    decreases n,
{
    if n > 0 {
        let rest = text.drop_first();
        assert forall|j: int| 0 <= j < n - 1 implies white_space(#[trigger] rest[j]) by {
            assert(rest[j] == text[j + 1]);
        }
        if n < text.len() {
            assert(rest[n - 1] == text[n]);
        }
        lemma_leading_blanks(rest, n - 1);
    }
}

/// A text that ends with `n` characters of white space behind another
/// character, or is nothing else, ends with exactly `n` of them.
pub proof fn lemma_trailing_blanks(text: Seq<char>, n: int)
    requires
        0 <= n <= text.len(),
        forall|j: int| text.len() - n <= j < text.len() ==> white_space(#[trigger] text[j]),
        n < text.len() ==> !white_space(text[text.len() - n - 1]),
    ensures
        trailing_blanks(text) == n,
    decreases n,
{
    if n > 0 {
        let rest = text.drop_last();
        assert forall|j: int| rest.len() - (n - 1) <= j < rest.len() implies white_space(
            #[trigger] rest[j],
        ) by {
            assert(rest[j] == text[j]);
        }
        if n < text.len() {
            assert(rest[rest.len() - (n - 1) - 1] == text[text.len() - n - 1]);
        }
        lemma_trailing_blanks(rest, n - 1);
    }
}

/// Whether `c` is one of the digits `0` to `9`.
pub open spec fn is_digit_char(c: char) -> bool {
    '0' as u32 <= c as u32 <= '9' as u32
}

/// The number that the digit `c` stands for.
pub open spec fn digit_of(c: char) -> nat {
    (c as u32 - '0' as u32) as nat
}

/// Whether every character of `text` is a digit.
pub open spec fn all_digits(text: Seq<char>) -> bool {
    forall|i: int| 0 <= i < text.len() ==> is_digit_char(#[trigger] text[i])
}

/// The number that a row of digits stands for in base ten.
pub open spec fn decimal(digits: Seq<char>) -> nat
    decreases digits.len(),
{
    if digits.len() == 0 {
        0
    } else {
        decimal(digits.drop_last()) * 10 + digit_of(digits.last())
    }
}

/// The number that `text` stands for: an optional `+`, then one digit or
/// more, no more than 255 in all. Any other text stands for none.
pub open spec fn unsigned_of(text: Seq<char>) -> Option<u8> {
    let digits = if text.len() > 0 && text[0] == '+' {
        text.subrange(1, text.len() as int)
    } else {
        text
    };
    if digits.len() > 0 && all_digits(digits) && decimal(digits) <= 255 {
        Some(decimal(digits) as u8)
    } else {
        None
    }
}

/// Whether `text` reads `null`, in upper or lower case.
pub open spec fn is_null_word(text: Seq<char>) -> bool {
    &&& text.len() == 4
    &&& (text[0] == 'n' || text[0] == 'N')
    &&& (text[1] == 'u' || text[1] == 'U')
    &&& (text[2] == 'l' || text[2] == 'L')
    &&& (text[3] == 'l' || text[3] == 'L')
}

/// Whether `text` marks an unknown cell: nothing, `null`, `*` or `0`.
pub open spec fn is_blank_marker(text: Seq<char>) -> bool {
    text.len() == 0 || is_null_word(text) || text == seq!['*'] || text == seq!['0']
}

/// The cell that a trimmed field stands for: a given where the field reads
/// a digit from 1 to 9, else unknown: for a blank marker, for any other
/// number and for anything that is no number.
pub open spec fn value_of(text: Seq<char>) -> Option<u8> {
    if is_blank_marker(text) {
        None
    } else {
        match unsigned_of(text) {
            Some(n) => digit_cell(n as int),
            None => None,
        }
    }
}

/// The cells of a record.
pub open spec fn row_of_fields(fields: Seq<Seq<char>>) -> Seq<Option<u8>> {
    fields.map_values(|field: Seq<char>| value_of(trim_of(field)))
}

/// The rows of a file: one for each record that is no error, in order.
pub open spec fn rows_of_records(records: Seq<Option<Seq<Seq<char>>>>) -> Seq<Seq<Option<u8>>>
    decreases records.len(),
{
    if records.len() == 0 {
        Seq::empty()
    } else {
        let before = rows_of_records(records.drop_last());
        match records.last() {
            Some(fields) => before.push(row_of_fields(fields)),
            None => before,
        }
    }
}

/// A number grows with every digit that is appended.
pub proof fn lemma_decimal_grows(digits: Seq<char>, n: int)
    requires
        0 <= n <= digits.len(),
    ensures
        decimal(digits.subrange(0, n)) <= decimal(digits),
    decreases digits.len() - n,
{
    if n < digits.len() {
        lemma_decimal_grows(digits, n + 1);
        let longer = digits.subrange(0, n + 1);
        assert(longer.drop_last() =~= digits.subrange(0, n));
    } else {
        assert(digits.subrange(0, n) =~= digits);
    }
}

/// The characters of a text.
pub fn chars_of(text: &str) -> (chars: Vec<char>)
    ensures
        chars@ == text@,
{
    let len = text.unicode_len();
    let mut chars: Vec<char> = Vec::new();
    let mut i: usize = 0;
    while i < len
        invariant
            i <= len,
            len == text@.len(),
            chars@ == text@.subrange(0, i as int),
        decreases len - i,
    {
        chars.push(text.get_char(i));
        i += 1;
        assert(chars@ =~= text@.subrange(0, i as int));
    }
    assert(chars@ =~= text@);
    chars
}

/// The number that the characters from `start` on stand for, if they are
/// one digit or more and stand for no more than 255.
pub fn parse_digits(chars: &Vec<char>, start: usize) -> (number: Option<u8>)
    requires
        start <= chars@.len(),
    ensures
        number == ({
            let digits = chars@.subrange(start as int, chars@.len() as int);
            if digits.len() > 0 && all_digits(digits) && decimal(digits) <= 255 {
                Some(decimal(digits) as u8)
            } else {
                None
            }
        }),
{
    let ghost digits = chars@.subrange(start as int, chars@.len() as int);
    if start == chars.len() {
        return None;
    }
    let mut total: u32 = 0;
    let mut i: usize = start;
    assert(digits.subrange(0, 0) =~= Seq::<char>::empty());
    while i < chars.len()
        invariant
            start <= i <= chars@.len(),
            digits == chars@.subrange(start as int, chars@.len() as int),
            all_digits(digits.subrange(0, i - start)),
            total == decimal(digits.subrange(0, i - start)),
            total <= 255,
        decreases chars@.len() - i,
    {
        let c = chars[i];
        let code = c as u32;
        let ghost shorter = digits.subrange(0, i - start);
        let ghost longer = digits.subrange(0, i - start + 1);
        proof {
            assert(longer.drop_last() =~= shorter);
            assert(longer.last() == c);
            assert(digits[i - start] == c);
        }
        if code < '0' as u32 || code > '9' as u32 {
            assert(!is_digit_char(digits[i - start]));
            return None;
        }
        total = total * 10 + (code - '0' as u32);
        proof {
            assert forall|j: int| 0 <= j < longer.len() implies is_digit_char(
                #[trigger] longer[j],
            ) by {
                if j < shorter.len() {
                    assert(shorter[j] == longer[j]);
                }
            }
            assert(total == decimal(longer));
        }
        if total > 255 {
            proof {
                lemma_decimal_grows(digits, i - start + 1);
            }
            return None;
        }
        i += 1;
    }
    assert(digits.subrange(0, i - start) =~= digits);
    Some(total as u8)
}

/// Whether `chars` reads `null`, in upper or lower case.
pub fn reads_null(chars: &Vec<char>) -> (yes: bool)
    ensures
        yes == is_null_word(chars@),
{
    if chars.len() != 4 {
        return false;
    }
    (chars[0] == 'n' || chars[0] == 'N') && (chars[1] == 'u' || chars[1] == 'U') && (chars[2]
        == 'l' || chars[2] == 'L') && (chars[3] == 'l' || chars[3] == 'L')
}

/// The cell that the characters of a trimmed field stand for: unknown for
/// nothing, `null`, `*` and `0`, a given for a digit from 1 to 9, and
/// unknown for anything else.
pub fn parse_chars(chars: &Vec<char>) -> (cell: Option<u8>)
    ensures
        cell == value_of(chars@),
{
    if chars.len() == 0 {
        return None;
    }
    if reads_null(chars) {
        return None;
    }
    if chars.len() == 1 && (chars[0] == '*' || chars[0] == '0') {
        assert(chars@ =~= seq![chars@[0]]);
        return None;
    }
    assert(!is_blank_marker(chars@)) by {
        if chars@ == seq!['*'] || chars@ == seq!['0'] {
            assert(chars@.len() == 1);
        }
    }
    let number = if chars[0] == '+' {
        parse_digits(chars, 1)
    } else {
        assert(chars@.subrange(0, chars@.len() as int) =~= chars@);
        parse_digits(chars, 0)
    };
    match number {
        Some(n) => cell_of_number(n as u64),
        None => None,
    }
}

/// The cell that a trimmed field stands for: unknown for nothing, `null`,
/// `*` and `0`, a given for a digit from 1 to 9, and unknown for anything
/// else.
pub fn parse_value(value: &str) -> (cell: Option<u8>)
    ensures
        cell == value_of(value@),
{
    let chars = chars_of(value);
    parse_chars(&chars)
}

/// `chars` without the white space that they begin and end with.
pub fn trim_chars(chars: &Vec<char>) -> (inner: Vec<char>)
    ensures
        inner@ == trim_of(chars@),
{
    let mut from: usize = 0;
    while from < chars.len() && is_whitespace(chars[from])
        invariant
            from <= chars.len(),
            forall|j: int| 0 <= j < from ==> white_space(#[trigger] chars@[j]),
        decreases chars.len() - from,
    {
        from += 1;
    }
    proof {
        lemma_leading_blanks(chars@, from as int);
    }
    let mut inner: Vec<char> = Vec::new();
    if from == chars.len() {
        return inner;
    }
    let mut to: usize = chars.len();
    while to > from && is_whitespace(chars[to - 1])
        invariant
            from < chars.len(),
            from <= to <= chars.len(),
            !white_space(chars@[from as int]),
            forall|j: int| to <= j < chars.len() ==> white_space(#[trigger] chars@[j]),
        decreases to,
    {
        to -= 1;
    }
    proof {
        lemma_trailing_blanks(chars@, chars.len() - to);
    }
    let mut i: usize = from;
    while i < to
        invariant
            from <= i <= to <= chars.len(),
            inner@ == chars@.subrange(from as int, i as int),
        decreases to - i,
    {
        inner.push(chars[i]);
        i += 1;
        assert(inner@ =~= chars@.subrange(from as int, i as int));
    }
    inner
}

/// The cell that a field stands for, white space around it left aside.
pub fn parse_field(field: &str) -> (cell: Option<u8>)
    ensures
        cell == value_of(trim_of(field@)),
{
    let chars = chars_of(field);
    let inner = trim_chars(&chars);
    parse_chars(&inner)
}

/// The cells of one record.
pub fn parse_record(fields: &Vec<String>) -> (row: Vec<Option<u8>>)
    ensures
        row@ == row_of_fields(fields@.map_values(|field: String| field@)),
{
    let mut row: Vec<Option<u8>> = Vec::new();
    let mut i: usize = 0;
    while i < fields.len()
        invariant
            i <= fields.len(),
            row@.len() == i,
            forall|j: int| 0 <= j < i ==> row@[j] == value_of(trim_of(fields@[j]@)),
        decreases fields.len() - i,
    {
        row.push(parse_field(fields[i].as_str()));
        i += 1;
    }
    assert(row@ =~= row_of_fields(fields@.map_values(|field: String| field@)));
    row
}

/// The positions, counted from 0, of the records that are errors.
pub open spec fn skipped_records(records: Seq<Option<Seq<Seq<char>>>>) -> Seq<usize>
    decreases records.len(),
{
    if records.len() == 0 {
        Seq::empty()
    } else {
        let before = skipped_records(records.drop_last());
        match records.last() {
            Some(_) => before,
            None => before.push((records.len() - 1) as usize),
        }
    }
}

/// What was read from a CSV file: the table, and the positions, counted
/// from 0, of the records that had to be left out.
pub struct CsvReading {
    pub table: Vec<Vec<Option<u8>>>,
    pub skipped: Vec<usize>,
}

/// Reads the bytes of a CSV file without a header row: one row for each
/// record, one cell for each field. A record that cannot be read is left
/// out of the table and its position is noted.
pub fn read_csv(data: &[u8]) -> (reading: CsvReading)
    ensures
        reading.table@.map_values(|row: Vec<Option<u8>>| row@) == rows_of_records(
            csv_records(data@),
        ),
        reading.skipped@ == skipped_records(csv_records(data@)),
{
    let records = read_records(data);
    let ghost all = records_view(records@);
    let mut table: Vec<Vec<Option<u8>>> = Vec::new();
    let mut skipped: Vec<usize> = Vec::new();
    let mut i: usize = 0;
    assert(all.subrange(0, 0) =~= Seq::<Option<Seq<Seq<char>>>>::empty());
    while i < records.len()
        invariant
            i <= records.len(),
            all == records_view(records@),
            table@.map_values(|row: Vec<Option<u8>>| row@) == rows_of_records(
                all.subrange(0, i as int),
            ),
            skipped@ == skipped_records(all.subrange(0, i as int)),
        decreases records.len() - i,
    {
        let ghost before = table@.map_values(|row: Vec<Option<u8>>| row@);
        proof {
            let longer = all.subrange(0, i + 1);
            assert(longer.drop_last() =~= all.subrange(0, i as int));
            assert(longer.last() == record_view(records@[i as int]));
        }
        match &records[i] {
            Some(fields) => {
                let row = parse_record(fields);
                table.push(row);
                assert(table@.map_values(|row: Vec<Option<u8>>| row@) =~= before.push(row@));
            },
            None => {
                skipped.push(i);
            },
        }
        i += 1;
    }
    assert(all.subrange(0, i as int) =~= all);
    CsvReading { table, skipped }
}

/// The table that the bytes of a CSV file without a header row stand for:
/// one row for each record, one cell for each field. A record that cannot
/// be read is left out.
pub fn parse_csv(data: &[u8]) -> (table: Vec<Vec<Option<u8>>>)
    ensures
        table@.map_values(|row: Vec<Option<u8>>| row@) == rows_of_records(csv_records(data@)),
{
    read_csv(data).table
}

} // verus!
