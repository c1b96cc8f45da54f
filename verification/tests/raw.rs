use csv_parser::csv::{convert_csv, parse_csv, print_table, TableOptions};

#[test]
fn csv_parse_empty_string() {
    let txt = r#""#;
    let csv = parse_csv(txt).unwrap();
    let expected: Vec<Vec<String>> = vec![vec![String::from("")]];
    assert_eq!(csv, expected);
}

#[test]
fn parse() {
    let txt = r#"1,2,3,hallo
test, cheese,chocolate,"parsing some csv's"
"#;
    let csv = parse_csv(txt).unwrap();
    let expected: Vec<Vec<String>> = vec![
        vec![String::from("1"), String::from("2"), String::from("3"), String::from("hallo")],
        vec![
            String::from("test"),
            String::from(" cheese"),
            String::from("chocolate"),
            String::from("\"parsing some csv's\""),
        ],
        vec![String::from("")],
    ];
    assert_eq!(csv, expected);
}

#[test]
fn csv_parse_and_convert_are_invertable() {
    let txt = r#"12,2,3,2,3,1,"1 testing, test, question"
1,2,3,2,3,1,2,"test"
1,2,3,2,"CHEESE",3.4,1,2.2
2"#;

    let csv = parse_csv(txt).unwrap();
    assert_eq!(txt, convert_csv(csv));
}

#[test]
fn test_print_table() {
    let table: Vec<Vec<String>> = vec![
        vec![String::from("1"), String::from("2"), String::from("3"), String::from("hallo")],
        vec![
            String::from("test"),
            String::from(" cheese"),
            String::from("chocolate"),
            String::from("\"parsing some csv's\""),
        ],
        vec![String::from("")],
    ];

    let expected = String::from(r#"+----------------+-------------------+---------------------+--------------------------------+
|               1|                  2|                    3|                           hallo|
|            test|             cheese|            chocolate|            "parsing some csv's"|
|                |                   |                     |                                |
+----------------+-------------------+---------------------+--------------------------------+"#);
    assert_eq!(print_table(table, None), expected);

}

#[test]
fn test_print_table_with_config() {
    let config = TableOptions::new("0", "^", "v", "#", ";", 2);
    let table: Vec<Vec<String>> = vec![
        vec![String::from("1"), String::from("2"), String::from("3"), String::from("hallo")],
        vec![
            String::from("test"),
            String::from(" cheese"),
            String::from("chocolate"),
            String::from("\"parsing some csv's\""),
        ],
        vec![String::from("")],
    ];

    let expected = String::from(r##"0^^^^^^0^^^^^^^^^0^^^^^^^^^^^0^^^^^^^^^^^^^^^^^^^^^^0
#     1;        2;          3;                 hallo#
#  test;   cheese;  chocolate;  "parsing some csv's"#
#      ;         ;           ;                      #
0vvvvvv0vvvvvvvvv0vvvvvvvvvvv0vvvvvvvvvvvvvvvvvvvvvv0"##);
    assert_eq!(print_table(table, Some(config)), expected);
}
