use csv_parser::typed_csv::{convert_csv, parse_csv, Value};

/// The number `x` as the library holds it: by its literal.
fn number(x: f64) -> Value {
    Value::Number(x.to_string())
}

#[test]
fn typed_csv_parse_and_convert_are_invertable() {
    let txt = r#"12,2,3,2,3,1,"1 testing, test, question"
1,2,3,2,3,1,2,"test"
1,2,3,2,"CHEESE",3.4,1,2.2
2"#;

    let csv = parse_csv(txt).unwrap();
    assert_eq!(txt, convert_csv(csv));
}

#[test]
fn typed_csv_parse_empty_string() {
    let txt = r#""#;
    let csv = parse_csv(txt).unwrap();
    let expected: Vec<Vec<Value>> = vec![];
    assert_eq!(csv, expected);
}

#[test]
fn parse_accepts_different_quotes() {
    let txt = r#"
        12,2, 3
        12,2,'t'
        12,2,"1"
        "testing"
    "#;
    let csv = parse_csv(txt).unwrap();
    let expected = vec![
        vec![number(12.0), number(2.0), number(3.0)],
        vec![
            number(12.0),
            number(2.0),
            Value::String(String::from("t")),
        ],
        vec![
            number(12.0),
            number(2.0),
            Value::String(String::from("1")),
        ],
        vec![Value::String(String::from("testing"))],
    ];
    assert_eq!(csv, expected);
}

#[test]
fn format() {
    let csv = vec![
        vec![number(12.0), number(2.0), number(3.0)],
        vec![
            number(12.0),
            number(2.0),
            Value::String(String::from("t")),
        ],
        vec![
            number(12.0),
            number(2.0),
            Value::String(String::from("1")),
        ],
        vec![Value::String(String::from("testing"))],
    ];

    let expected = r#"12,2,3
12,2,"t"
12,2,"1"
"testing""#;
    assert_eq!(expected, convert_csv(csv));
}
