use csv_parser::error::{ParseError, ParseErrorKind};
use csv_parser::typed_csv::{convert_csv, is_number_text, parse_csv, write_cells, CsvParser, Value};

fn num(literal: &str) -> Value {
    Value::Number(String::from(literal))
}

fn text(content: &str) -> Value {
    Value::String(String::from(content))
}

#[test]
fn either_quote_opens_a_string() {
    let expected = vec![vec![num("12"), num("2"), text("t")]];
    assert_eq!(parse_csv("12,2,'t'").unwrap(), expected);
    assert_eq!(parse_csv("12,2,\"t\"").unwrap(), expected);
}

#[test]
fn numbers_and_strings_are_told_apart() {
    let t = parse_csv("1,2,3,2,\"CHEESE\",3.4,1,2.2").unwrap();
    assert_eq!(
        t,
        vec![vec![
            num("1"),
            num("2"),
            num("3"),
            num("2"),
            text("CHEESE"),
            num("3.4"),
            num("1"),
            num("2.2"),
        ]]
    );
    let floats: Vec<f64> = t[0]
        .iter()
        .filter_map(|v| match v {
            Value::Number(literal) => Some(literal.parse().unwrap()),
            Value::String(_) => None,
        })
        .collect();
    assert_eq!(floats, vec![1.0, 2.0, 3.0, 2.0, 3.4, 1.0, 2.2]);
}

#[test]
fn number_literals() {
    for literal in ["0", "12", "-3", "+7", "3.4", "-0.50", "+10.01", "007"] {
        assert!(is_number_text(literal), "{}", literal);
        assert!(literal.parse::<f64>().is_ok(), "{}", literal);
    }
    for other in ["", "-", "+", ".", "1.", ".5", "-.5", "1.2.3", "12a", "a12", "1e3", "--1", "1 2", "\u{663}"] {
        assert!(!is_number_text(other), "{}", other);
    }
}

#[test]
fn bare_fields_are_strings() {
    assert_eq!(
        parse_csv("abc, 12x ,1.,it's").unwrap(),
        vec![vec![text("abc"), text("12x"), text("1."), text("it's")]]
    );
}

#[test]
fn blanks_round_a_field_are_passed_over() {
    assert_eq!(
        parse_csv(" \t 12 \t, \"a b\" \t,\t'c'").unwrap(),
        vec![vec![num("12"), text("a b"), text("c")]]
    );
    assert_eq!(parse_csv("a b  ").unwrap(), vec![vec![text("a b")]]);
}

#[test]
fn quoted_string_holds_commas_breaks_and_the_other_quote() {
    assert_eq!(
        parse_csv("'a,\"b\"\nc',\"it's\"").unwrap(),
        vec![vec![text("a,\"b\"\nc"), text("it's")]]
    );
    assert_eq!(parse_csv("\"\",''").unwrap(), vec![vec![text(""), text("")]]);
}

#[test]
fn quoted_digits_are_a_string() {
    assert_eq!(parse_csv("\"12\",12").unwrap(), vec![vec![text("12"), num("12")]]);
}

#[test]
fn blank_lines_give_no_rows() {
    assert_eq!(parse_csv("\n\n1\n \t\n\n2\n").unwrap(), vec![vec![num("1")], vec![num("2")]]);
    assert_eq!(parse_csv(" \n\t").unwrap(), Vec::<Vec<Value>>::new());
}

#[test]
fn carriage_return_is_content() {
    assert_eq!(parse_csv("1\r\n2").unwrap(), vec![vec![text("1\r")], vec![num("2")]]);
}

#[test]
fn missing_value_is_rejected() {
    assert_eq!(
        CsvParser::parse("1,,2"),
        Err(ParseError { kind: ParseErrorKind::MissingValue, line: 1, column: 2 })
    );
    assert_eq!(
        CsvParser::parse("1\n 2,"),
        Err(ParseError { kind: ParseErrorKind::MissingValue, line: 2, column: 3 })
    );
    assert_eq!(
        CsvParser::parse("1, \n2"),
        Err(ParseError { kind: ParseErrorKind::MissingValue, line: 1, column: 2 })
    );
    assert_eq!(
        CsvParser::parse("7\n  ,1"),
        Err(ParseError { kind: ParseErrorKind::MissingValue, line: 2, column: 3 })
    );
    assert_eq!(parse_csv(",1"), Err(String::from("line 1, column 1: a value is missing")));
}

#[test]
fn unterminated_string_is_rejected() {
    assert_eq!(
        CsvParser::parse("1, 'abc\"\n"),
        Err(ParseError { kind: ParseErrorKind::UnterminatedQuote, line: 1, column: 4 })
    );
    assert_eq!(
        parse_csv("\"abc'"),
        Err(String::from("line 1, column 1: a quoted field is never closed"))
    );
}

#[test]
fn text_after_a_string_is_rejected() {
    assert_eq!(
        CsvParser::parse("'a' b,1"),
        Err(ParseError { kind: ParseErrorKind::TextAfterQuote, line: 1, column: 5 })
    );
    assert_eq!(
        parse_csv("1\n\"a\"\"b\""),
        Err(String::from("line 2, column 4: a closing quote is followed by text"))
    );
}

#[test]
fn strings_are_written_in_double_quotes_and_escaped() {
    let t = vec![vec![text("a\"b"), text("back\\slash"), text("it's"), text("line\nbreak"), num("-1.50")]];
    assert_eq!(
        convert_csv(t),
        "\"a\\\"b\",\"back\\\\slash\",\"it's\",\"line\\nbreak\",-1.50"
    );
}

#[test]
fn values_are_written_in_their_places() {
    let t = vec![vec![num("1"), text("x")], Vec::new(), vec![text("")]];
    assert_eq!(
        write_cells(&t),
        vec![vec![String::from("1"), String::from("\"x\"")], Vec::new(), vec![String::from("\"\"")]]
    );
    assert_eq!(convert_csv(t), "1,\"x\"\n\n\"\"");
    assert_eq!(convert_csv(Vec::new()), "");
}

#[test]
fn single_quoted_source_comes_back_double_quoted() {
    let t = parse_csv("'a', 5").unwrap();
    assert_eq!(convert_csv(t), "\"a\",5");
}
