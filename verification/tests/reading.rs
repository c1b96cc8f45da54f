use csv_parser::csv::{convert_csv, parse_csv, OfficialCsvParser};
use csv_parser::error::{ParseError, ParseErrorKind};
use csv_parser::text::{chars_of, decimal_string};
use csv_parser::{official_convert_csv, official_parse_csv};

fn table(rows: &[&[&str]]) -> Vec<Vec<String>> {
    rows.iter().map(|row| row.iter().map(|f| String::from(*f)).collect()).collect()
}

#[test]
fn written_table_reads_back() {
    let t = table(&[&["a", "", "\"x,y\nz\""], &[""], &["1", " 2 ", "it's", "\"\""]]);
    let text = convert_csv(table(&[&["a", "", "\"x,y\nz\""], &[""], &["1", " 2 ", "it's", "\"\""]]));
    assert_eq!(text, "a,,\"x,y\nz\"\n\n1, 2 ,it's,\"\"");
    assert_eq!(parse_csv(&text).unwrap(), t);
}

#[test]
fn read_text_writes_back() {
    let text = "x,\"a\nb\",\r\n,,\n\"q\",tail\n";
    let t = parse_csv(text).unwrap();
    assert_eq!(
        t,
        table(&[&["x", "\"a\nb\"", "\r"], &["", "", ""], &["\"q\"", "tail"], &[""]])
    );
    assert_eq!(convert_csv(t), text);
}

#[test]
fn trailing_line_break_gives_one_more_row() {
    assert_eq!(parse_csv("a\n").unwrap(), table(&[&["a"], &[""]]));
    assert_eq!(parse_csv("\n").unwrap(), table(&[&[""], &[""]]));
}

#[test]
fn quoted_field_keeps_its_quotes_and_commas() {
    assert_eq!(parse_csv("\"a,b\",c").unwrap(), table(&[&["\"a,b\"", "c"]]));
}

#[test]
fn quote_inside_a_plain_field_is_content() {
    assert_eq!(parse_csv("ab\"cd,'e'").unwrap(), table(&[&["ab\"cd", "'e'"]]));
}

#[test]
fn unterminated_quote_is_rejected() {
    assert_eq!(
        OfficialCsvParser::parse("a,b\nc,\"de\nf"),
        Err(ParseError { kind: ParseErrorKind::UnterminatedQuote, line: 2, column: 3 })
    );
    assert_eq!(
        parse_csv("a,b\nc,\"de\nf"),
        Err(String::from("line 2, column 3: a quoted field is never closed"))
    );
}

#[test]
fn text_after_closing_quote_is_rejected() {
    assert_eq!(
        OfficialCsvParser::parse("\"a\"b,c"),
        Err(ParseError { kind: ParseErrorKind::TextAfterQuote, line: 1, column: 4 })
    );
    assert_eq!(
        parse_csv("x\n\"a\"\"b\""),
        Err(String::from("line 2, column 4: a closing quote is followed by text"))
    );
}

#[test]
fn error_column_counts_characters() {
    assert_eq!(
        OfficialCsvParser::parse("\u{e9}\u{e9},\"x"),
        Err(ParseError { kind: ParseErrorKind::UnterminatedQuote, line: 1, column: 4 })
    );
}

#[test]
fn message_names_line_column_and_reason() {
    let e = ParseError { kind: ParseErrorKind::MissingValue, line: 120, column: 7 };
    assert_eq!(e.message(), "line 120, column 7: a value is missing");
}

#[test]
fn exported_names_read_and_write() {
    let t = official_parse_csv("1,2\n3").unwrap();
    assert_eq!(t, table(&[&["1", "2"], &["3"]]));
    assert_eq!(official_convert_csv(t), "1,2\n3");
}

#[test]
fn writing_joins_without_trailing_break() {
    assert_eq!(convert_csv(table(&[&["a", "b"], &["c"]])), "a,b\nc");
    assert_eq!(convert_csv(Vec::new()), "");
    assert_eq!(convert_csv(vec![Vec::new(), vec![String::from("x")]]), "\nx");
}

#[test]
fn decimal_digits() {
    assert_eq!(decimal_string(0), "0");
    assert_eq!(decimal_string(7), "7");
    assert_eq!(decimal_string(10), "10");
    assert_eq!(decimal_string(120345), "120345");
    assert_eq!(decimal_string(usize::MAX), usize::MAX.to_string());
}

#[test]
fn characters_one_by_one() {
    assert_eq!(chars_of("a\u{e9}\u{4e2d}z"), vec!['a', '\u{e9}', '\u{4e2d}', 'z']);
    assert_eq!(chars_of(""), Vec::<char>::new());
}

#[test]
fn fields_of_many_bytes_are_kept() {
    assert_eq!(
        parse_csv("\u{e9}t\u{e9},\"\u{4e2d}\u{6587}\"").unwrap(),
        table(&[&["\u{e9}t\u{e9}", "\"\u{4e2d}\u{6587}\""]])
    );
}
