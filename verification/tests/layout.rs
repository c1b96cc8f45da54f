use csv_parser::csv::{
    create_html_table, create_table, get_table_col_len, pad_table, print_html_table,
    print_padded_table, print_table, TableOptions,
};
use csv_parser::{official_print_html_table, official_print_padded_table, official_print_table};

fn rows(rows: &[&[&str]]) -> Vec<Vec<String>> {
    rows.iter().map(|row| row.iter().map(|f| String::from(*f)).collect()).collect()
}

#[test]
fn padding_extends_short_rows() {
    let padded = pad_table(rows(&[&["a", "b", "c"], &[], &["d"]]));
    assert_eq!(padded, rows(&[&["a", "b", "c"], &["", "", ""], &["d", "", ""]]));
}

#[test]
fn padding_twice_is_padding_once() {
    let once = pad_table(rows(&[&["1"], &["2", "3", "4", "5"], &["6", "7"]]));
    assert!(once.iter().all(|row| row.len() == 4));
    let twice = pad_table(pad_table(rows(&[&["1"], &["2", "3", "4", "5"], &["6", "7"]])));
    assert_eq!(twice, once);
}

#[test]
fn padding_of_nothing_is_nothing() {
    assert_eq!(pad_table(Vec::new()), Vec::<Vec<String>>::new());
    assert_eq!(pad_table(vec![Vec::new()]), vec![Vec::<String>::new()]);
}

#[test]
fn column_widths_are_the_longest_fields() {
    let t = rows(&[&["1", "22"], &["333"], &["", "4", "55555"]]);
    assert_eq!(get_table_col_len(&t), vec![3, 2, 5]);
    assert_eq!(get_table_col_len(&Vec::new()), Vec::<usize>::new());
}

#[test]
fn column_widths_count_bytes() {
    let t = rows(&[&["\u{e9}t\u{e9}", "ab"]]);
    assert_eq!(get_table_col_len(&t), vec![5, 2]);
}

#[test]
fn cells_are_filled_up_by_characters() {
    let out = print_table(
        rows(&[&["\u{e9}"], &["ab"]]),
        Some(TableOptions::new("+", "-", "=", "|", "/", 1)),
    );
    assert_eq!(out, "+---+\n|  \u{e9}|\n| ab|\n+===+");
}

#[test]
fn long_separators_stand_between_columns_only() {
    let out = print_table(
        rows(&[&["a", "b"], &["c"]]),
        Some(TableOptions::new("<>", "-", "_", "[", " | ", 0)),
    );
    assert_eq!(out, "<>-<>-<>\n[a | b[\n[c |  [\n<>_<>_<>");
}

#[test]
fn table_without_rows_is_two_rules() {
    assert_eq!(print_table(Vec::new(), None), "+\n+");
}

#[test]
fn table_of_empty_rows_has_empty_lines() {
    assert_eq!(print_table(vec![Vec::new()], None), "+\n||\n+");
}

#[test]
fn given_widths_are_used_as_they_are() {
    let out = create_table(
        rows(&[&["abc", "d", "left out"]]),
        vec![1, 3],
        Some(TableOptions::new("+", "-", "-", "|", "|", 1)),
    );
    assert_eq!(out, "+--+----+\n|abc|   d|\n+--+----+");
}

#[test]
fn default_options() {
    let o = TableOptions::default();
    assert_eq!(
        (o.corner, o.upper, o.bottom, o.side, o.between, o.extra_pad),
        ("+", "-", "-", "|", "|", 12)
    );
}

#[test]
fn new_options_keep_their_arguments() {
    let o = TableOptions::new("a", "b", "c", "d", "e", 6);
    assert_eq!(
        (o.corner, o.upper, o.bottom, o.side, o.between, o.extra_pad),
        ("a", "b", "c", "d", "e", 6)
    );
}

#[test]
fn html_rows_are_padded_and_not_escaped() {
    assert_eq!(
        print_html_table(rows(&[&["a", "<b>"], &["c"]])),
        "<tr><td>a</td><td><b></td></tr><tr><td>c</td><td></td></tr>"
    );
    assert_eq!(create_html_table(rows(&[&["a"], &[]])), "<tr><td>a</td></tr><tr></tr>");
    assert_eq!(print_html_table(Vec::new()), "");
}

#[test]
fn padded_text_is_rectangular() {
    assert_eq!(print_padded_table(rows(&[&["a", "b", "c"], &["d"], &["e", "f"]])), "a,b,c\nd,,\ne,f,");
}

#[test]
fn exported_names_lay_out() {
    assert_eq!(official_print_padded_table(rows(&[&["a", "b"], &["c"]])), "a,b\nc,");
    assert_eq!(
        official_print_html_table(rows(&[&["a"]])),
        "<tr><td>a</td></tr>"
    );
    assert_eq!(
        official_print_table(rows(&[&["a"]]), Some(TableOptions::new("+", "-", "-", "|", "|", 0))),
        "+-+\n|a|\n+-+"
    );
}
