use sudoku_solver::objects::sudoku::Sudoku9x9;
use sudoku_solver::parsers::csv::{
    chars_of, parse_chars, parse_csv, parse_digits, parse_field, parse_record, parse_value,
    read_csv, reads_null, trim_chars,
};
use sudoku_solver::parsers::digit::cell_of_number;
use sudoku_solver::parsers::json::{parse_json, table_of_numbers, JsonError};
use sudoku_solver::traits::{SimpleSudoku, SolveMetrics};

#[test]
fn test_parse_value_blank_markers() {
    assert_eq!(parse_value(""), None);
    assert_eq!(parse_value("null"), None);
    assert_eq!(parse_value("NULL"), None);
    assert_eq!(parse_value("Null"), None);
    assert_eq!(parse_value("nUlL"), None);
    assert_eq!(parse_value("*"), None);
    assert_eq!(parse_value("0"), None);
}

#[test]
fn test_parse_value_digits() {
    assert_eq!(parse_value("1"), Some(1));
    assert_eq!(parse_value("5"), Some(5));
    assert_eq!(parse_value("9"), Some(9));
    assert_eq!(parse_value("+7"), Some(7));
    assert_eq!(parse_value("007"), Some(7));
}

#[test]
fn test_parse_value_zero_is_unknown() {
    assert_eq!(parse_value("0"), None);
    assert_eq!(parse_value("00"), None);
    assert_eq!(parse_value("+0"), None);
}

#[test]
fn test_parse_value_other_numbers_are_unknown() {
    assert_eq!(parse_value("10"), None);
    assert_eq!(parse_value("12"), None);
    assert_eq!(parse_value("255"), None);
    assert_eq!(parse_value("256"), None);
    assert_eq!(parse_value("265"), None);
    assert_eq!(parse_value("1000"), None);
}

#[test]
fn test_parse_value_agrees_with_std() {
    for text in [
        "5", "+5", "-5", "9", "10", "256", "300", "1000", "0255", "00256", "0009", "+", "++1", "1+",
        "a", "1a", "nul", "nulls", "**", " 5", "5 ", "٣", "1_0", "2.0",
    ] {
        let expected = text.parse::<u8>().ok().filter(|n| (1..=9).contains(n));
        assert_eq!(parse_value(text), expected);
    }
}

#[test]
fn test_parse_value_unrecognised_is_unknown() {
    assert_eq!(parse_value("-1"), None);
    assert_eq!(parse_value("x"), None);
    assert_eq!(parse_value("+"), None);
    assert_eq!(parse_value("4 2"), None);
}

#[test]
fn test_cell_of_number() {
    assert_eq!(cell_of_number(0), None);
    assert_eq!(cell_of_number(1), Some(1));
    assert_eq!(cell_of_number(9), Some(9));
    assert_eq!(cell_of_number(10), None);
    assert_eq!(cell_of_number(257), None);
    assert_eq!(cell_of_number(265), None);
    assert_eq!(cell_of_number(u64::MAX), None);
}

#[test]
fn test_parse_digits_and_helpers() {
    assert_eq!(chars_of("a+1"), vec!['a', '+', '1']);
    assert_eq!(parse_digits(&vec!['a', '+', '1'], 2), Some(1));
    assert_eq!(parse_digits(&vec!['a', '+', '1'], 1), None);
    assert_eq!(parse_digits(&vec!['a', '+', '1'], 3), None);
    assert_eq!(parse_digits(&vec!['2', '5', '6'], 0), None);
    assert_eq!(parse_digits(&vec!['2', '5', '6'], 1), Some(56));
    assert_eq!(parse_digits(&vec!['2', '5', '5'], 0), Some(255));
    assert!(reads_null(&vec!['N', 'u', 'L', 'l']));
    assert!(!reads_null(&vec!['n', 'u', 'l']));
    assert!(!reads_null(&vec!['n', 'u', 'l', '1']));
}

#[test]
fn test_parse_field_trims() {
    assert_eq!(parse_field(" 5 "), Some(5));
    assert_eq!(parse_field("\t7\n"), Some(7));
    assert_eq!(parse_field("   "), None);
    assert_eq!(parse_field(" null "), None);
    assert_eq!(parse_field(" * "), None);
    assert_eq!(parse_field(" 0"), None);
    assert_eq!(parse_field("\u{a0}8\u{3000}"), Some(8));
    assert_eq!(parse_field("4 2"), None);
}

#[test]
fn test_parse_record() {
    let fields: Vec<String> = ["5", " 3", "", "*", "7 ", "null", "0", "x", "12"].iter().map(|f| f.to_string()).collect();
    assert_eq!(
        parse_record(&fields),
        vec![Some(5), Some(3), None, None, Some(7), None, None, None, None]
    );
}

#[test]
fn test_parse_csv() {
    let data = "5,3,,,7,,,,\n6,*,0,1,9,5,null,NULL, \n";
    assert_eq!(
        parse_csv(data.as_bytes()),
        vec![
            vec![Some(5), Some(3), None, None, Some(7), None, None, None, None],
            vec![Some(6), None, None, Some(1), Some(9), Some(5), None, None, None],
        ]
    );
}

#[test]
fn test_parse_csv_has_no_header_row() {
    assert_eq!(parse_csv(b"1,2\n3,4"), vec![vec![Some(1), Some(2)], vec![Some(3), Some(4)]]);
    assert_eq!(parse_csv(b""), Vec::<Vec<Option<u8>>>::new());
}

#[test]
fn test_parse_csv_quoted_fields() {
    assert_eq!(parse_csv(b"\"1\",\" 2 \",\"\"\n"), vec![vec![Some(1), Some(2), None]]);
}

#[test]
fn test_parse_csv_skips_records_of_another_length() {
    assert_eq!(
        parse_csv(b"1,2,3\n4,5\n6,7,8\n"),
        vec![vec![Some(1), Some(2), Some(3)], vec![Some(6), Some(7), Some(8)]]
    );
}

#[test]
fn test_parse_csv_skips_records_that_are_no_text() {
    assert_eq!(
        parse_csv(b"1,2\n\xff,3\n4,5\n"),
        vec![vec![Some(1), Some(2)], vec![Some(4), Some(5)]]
    );
}

#[test]
fn test_parse_csv_to_grid() {
    let data = "5,3,,,7,,,,\n6,,,1,9,5,,,\n,9,8,,,,,6,\n8,,,,6,,,,3\n4,,,8,,3,,,1\n7,,,,2,,,,6\n,6,,,,,2,8,\n,,,4,1,9,,,5\n,,,,8,,,7,9\n";
    let sudoku = Sudoku9x9::new(parse_csv(data.as_bytes()));
    assert_eq!(sudoku.count_solved_cells(), 30);
}

#[test]
fn test_parse_json() {
    assert_eq!(
        parse_json("[[5, 3, null], [null, 1, 9]]"),
        Ok(vec![vec![Some(5), Some(3), None], vec![None, Some(1), Some(9)]])
    );
    assert_eq!(parse_json("[]"), Ok(Vec::new()));
    assert_eq!(parse_json(" [ [ ] ] "), Ok(vec![Vec::new()]));
}

#[test]
fn test_parse_json_zero_is_unknown() {
    assert_eq!(parse_json("[[0, 4, 0]]"), Ok(vec![vec![None, Some(4), None]]));
}

#[test]
fn test_parse_json_never_wraps_a_number() {
    assert_eq!(
        parse_json("[[9, 10, 255, 256, 257, 265, 1000, 18446744073709551615]]"),
        Ok(vec![vec![Some(9), None, None, None, None, None, None, None]])
    );
}

#[test]
fn test_parse_json_refuses_what_is_no_table() {
    for text in [
        "", "5", "null", "{}", "[5]", "[null]", "[[\"5\"]]", "[[1.5]]", "[[1.0]]", "[[-1]]",
        "[[true]]", "[[1] 2]", "[[1]] x", "[[18446744073709551616]]", "[[1e2]]", "[[[1]]]",
    ] {
        assert_eq!(parse_json(text), Err(JsonError::NotATable));
    }
}

#[test]
fn test_table_of_numbers() {
    assert_eq!(
        table_of_numbers(&vec![vec![Some(1), None], vec![], vec![Some(511), Some(0), Some(9)]]),
        vec![vec![Some(1), None], vec![], vec![None, None, Some(9)]]
    );
}

#[test]
fn test_parse_json_to_grid() {
    let text = "[[5,3,0,0,7,0,0,0,0],[6,0,0,1,9,5,0,0,0],[0,9,8,0,0,0,0,6,0],\
        [8,0,0,0,6,0,0,0,3],[4,0,0,8,0,3,0,0,1],[7,0,0,0,2,0,0,0,6],\
        [0,6,0,0,0,0,2,8,0],[null,null,null,4,1,9,null,null,5],[0,0,0,0,8,0,0,7,9]]";
    let sudoku = Sudoku9x9::new(parse_json(text).unwrap());
    assert_eq!(sudoku.count_solved_cells(), 30);
}

#[test]
fn test_read_csv_notes_the_records_left_out() {
    let reading = read_csv(b"1,2,3\n4,5\n6,7,8\n\xff,1,2\n9,9,9\n");
    assert_eq!(
        reading.table,
        vec![
            vec![Some(1), Some(2), Some(3)],
            vec![Some(6), Some(7), Some(8)],
            vec![Some(9), Some(9), Some(9)]
        ]
    );
    assert_eq!(reading.skipped, vec![1, 3]);

    let clean = read_csv(b"1,2\n3,4\n");
    assert_eq!(clean.table, parse_csv(b"1,2\n3,4\n"));
    assert!(clean.skipped.is_empty());
}

#[test]
fn test_trim_chars_agrees_with_std() {
    for text in ["", " ", "  \t\n", "5", " 5", "5 ", " 5 6 ", "\u{a0}8\u{3000}", "a\u{2003}", "\u{feff}x ", "\r\n null \r\n"] {
        let chars: Vec<char> = text.chars().collect();
        let expected: Vec<char> = text.trim().chars().collect();
        assert_eq!(trim_chars(&chars), expected);
    }
}

#[test]
fn test_parse_chars() {
    assert_eq!(parse_chars(&vec!['4']), Some(4));
    assert_eq!(parse_chars(&vec![' ', '4']), None);
    assert_eq!(parse_chars(&vec!['N', 'U', 'L', 'L']), None);
    assert_eq!(parse_chars(&Vec::new()), None);
}
