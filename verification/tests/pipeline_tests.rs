use toon_validate::toon_parser::scalar_to_string;
use toon_validate::{Entries, InputFormat, Parser, Table, ToonParser, TqError, Validator, Value};

#[test]
fn test_scalar_round_trip_preserves_type() {
    // null, booleans, numbers and strings survive canonical rendering
    let cases = vec![
        Value::Null,
        Value::Bool(true),
        Value::Bool(false),
        Value::Number("42".to_string()),
        Value::Number("-1.5e3".to_string()),
        Value::String("Alice".to_string()),
        // quoting makes even keyword-shaped strings unambiguous
        Value::String("null".to_string()),
        Value::String("42".to_string()),
        Value::String("".to_string()),
    ];
    for v in cases {
        let text = scalar_to_string(&v);
        let back = ToonParser::parse_simple_value(&text);
        assert_eq!(back, v);
    }
}

#[test]
fn test_parse_then_validate_table() {
    let input = "users[2]:\n  - id: 1\n    name: \"Alice\"\n  - id: 2\n    name: \"Bob\"";
    let value = ToonParser::parse(input).unwrap();
    assert!(Validator::validate(&value).is_ok());
    if let Value::Object(obj) = &value {
        let table = obj.get("users").unwrap().as_table().unwrap();
        assert_eq!(table.rows.len(), table.declared_rows);
    } else {
        panic!("Expected object");
    }
}

#[test]
fn test_row_mismatch_error_fields() {
    let input = "users[3]:\n  - id: 1\n    name: \"Alice\"\n  - id: 2\n    name: \"Bob\"";
    match ToonParser::parse(input) {
        Err(TqError::TableRowMismatch { name, declared, actual }) => {
            assert_eq!(name, "users");
            assert_eq!(declared, 3);
            assert_eq!(actual, 2);
        },
        other => panic!("Expected TableRowMismatch, got {:?}", other),
    }
}

#[test]
fn test_schema_report_contents() {
    // missing = reference minus row, extra = row minus reference
    let mut row1 = Entries::new();
    row1.insert("id".to_string(), Value::Number("1".to_string()));
    row1.insert("name".to_string(), Value::String("Alice".to_string()));
    let mut row2 = Entries::new();
    row2.insert("id".to_string(), Value::Number("2".to_string()));
    row2.insert("email".to_string(), Value::String("bob@example.com".to_string()));
    let table = Table { name: "users".to_string(), declared_rows: 2, rows: vec![row1, row2] };
    match Validator::validate(&Value::Table(table)) {
        Err(TqError::TableSchemaInconsistent { name, message }) => {
            assert_eq!(name, "users");
            assert!(message.contains("Row 2"));
            assert!(message.contains("Missing fields: [\"name\"]"));
            assert!(message.contains("Extra fields: [\"email\"]"));
        },
        other => panic!("Expected TableSchemaInconsistent, got {:?}", other),
    }
}

#[test]
fn test_schema_detection_is_symmetric() {
    let mut a = Entries::new();
    a.insert("id".to_string(), Value::Number("1".to_string()));
    a.insert("name".to_string(), Value::String("x".to_string()));
    let mut b = Entries::new();
    b.insert("id".to_string(), Value::Number("2".to_string()));
    b.insert("email".to_string(), Value::String("y".to_string()));

    let mut a2 = Entries::new();
    a2.insert("id".to_string(), Value::Number("1".to_string()));
    a2.insert("name".to_string(), Value::String("x".to_string()));
    let mut b2 = Entries::new();
    b2.insert("id".to_string(), Value::Number("2".to_string()));
    b2.insert("email".to_string(), Value::String("y".to_string()));

    let fwd = Table { name: "t".to_string(), declared_rows: 2, rows: vec![a, b] };
    let rev = Table { name: "t".to_string(), declared_rows: 2, rows: vec![b2, a2] };
    // divergence is detected whichever row is the reference
    assert!(Validator::validate(&Value::Table(fwd)).is_err());
    assert!(Validator::validate(&Value::Table(rev)).is_err());
}

#[test]
fn test_nested_table_error_content() {
    // the error of a table below the root carries the same exact report
    let mut row1 = Entries::new();
    row1.insert("id".to_string(), Value::Number("1".to_string()));
    row1.insert("name".to_string(), Value::String("Alice".to_string()));
    let mut row2 = Entries::new();
    row2.insert("id".to_string(), Value::Number("2".to_string()));
    row2.insert("email".to_string(), Value::String("b".to_string()));
    let table = Table { name: "users".to_string(), declared_rows: 2, rows: vec![row1, row2] };
    let mut obj = Entries::new();
    obj.insert("ok".to_string(), Value::Bool(true));
    obj.insert("users".to_string(), Value::Table(table));
    match Validator::validate(&Value::Object(obj)) {
        Err(TqError::TableSchemaInconsistent { name, message }) => {
            assert_eq!(name, "users");
            assert!(message.contains("Row 2"));
            assert!(message.contains("Missing fields: [\"name\"]"));
            assert!(message.contains("Extra fields: [\"email\"]"));
        },
        other => panic!("Expected TableSchemaInconsistent, got {:?}", other),
    }
}

#[test]
fn test_root_empty_object_advisory() {
    let issues = Validator::check_structure(&Value::Object(Entries::new()));
    assert_eq!(issues.len(), 1);
    assert_eq!(issues[0], "Empty object");
}

#[test]
fn test_detect_format_cases() {
    assert_eq!(Parser::detect_format("{\"a\": 1}"), InputFormat::Json);
    assert_eq!(Parser::detect_format("  [1, 2]"), InputFormat::Json);
    assert_eq!(Parser::detect_format("a: 1"), InputFormat::Toon);
    assert_eq!(Parser::detect_format(""), InputFormat::Toon);
}

#[test]
fn test_input_format_from_str() {
    assert_eq!(InputFormat::from_str("toon").unwrap(), InputFormat::Toon);
    assert_eq!(InputFormat::from_str("TOON").unwrap(), InputFormat::Toon);
    assert_eq!(InputFormat::from_str("json").unwrap(), InputFormat::Json);
    assert_eq!(InputFormat::from_str("Json").unwrap(), InputFormat::Json);
    match InputFormat::from_str("xml") {
        Err(TqError::InvalidFormat(m)) => {
            assert_eq!(m, "Unknown format: xml");
        },
        other => panic!("Expected InvalidFormat, got {:?}", other),
    }
}

#[test]
fn test_parse_error_reports_line_and_text() {
    let input = "ok: 1\nnot a pair";
    match ToonParser::parse(input) {
        Err(TqError::Parse { line, message }) => {
            assert_eq!(line, 2);
            assert_eq!(message, "Invalid syntax: not a pair");
        },
        other => panic!("Expected Parse error, got {:?}", other),
    }
}

#[test]
fn test_error_messages_exact() {
    let e = TqError::Parse { line: 7, message: "Invalid syntax: x".to_string() };
    assert_eq!(e.message(), "Parse error at line 7: Invalid syntax: x");
    let e = TqError::TableRowMismatch { name: "users".to_string(), declared: 3, actual: 2 };
    assert_eq!(e.message(), "Table users declared with 3 rows but found 2");
    let e = TqError::TableSchemaInconsistent {
        name: "users".to_string(),
        message: "Row 2 has different schema. ".to_string(),
    };
    assert_eq!(e.message(), "Inconsistent table schema in users: Row 2 has different schema. ");
    let e = TqError::Validation("bad".to_string());
    assert_eq!(e.message(), "Validation error: bad");
    let e = TqError::InvalidFormat("Unknown format: xml".to_string());
    assert_eq!(e.message(), "Invalid input format: Unknown format: xml");
}

#[test]
fn test_numeric_literal_edges() {
    assert_eq!(ToonParser::parse_simple_value("-1.5e3"), Value::Number("-1.5e3".to_string()));
    assert_eq!(ToonParser::parse_simple_value(".5"), Value::Number(".5".to_string()));
    assert_eq!(ToonParser::parse_simple_value("+7"), Value::Number("+7".to_string()));
    assert_eq!(ToonParser::parse_simple_value("inf"), Value::Number("inf".to_string()));
    assert_eq!(ToonParser::parse_simple_value("NaN"), Value::Number("NaN".to_string()));
    assert_eq!(ToonParser::parse_simple_value("1..2"), Value::String("1..2".to_string()));
    assert_eq!(ToonParser::parse_simple_value("1e"), Value::String("1e".to_string()));
}

#[test]
fn test_quoted_literals() {
    assert_eq!(ToonParser::parse_simple_value("'single'"), Value::String("single".to_string()));
    assert_eq!(ToonParser::parse_simple_value("\"spaced  \""), Value::String("spaced  ".to_string()));
    // quotes are stripped without escape processing
    assert_eq!(ToonParser::parse_simple_value("\"a\\nb\""), Value::String("a\\nb".to_string()));
}

#[test]
fn test_inline_array_split_is_not_quote_aware() {
    // a comma inside a quoted element mis-splits; the limitation is kept
    let v = ToonParser::parse_simple_value("[\"a,b\"]");
    if let Value::Array(elems) = v {
        assert_eq!(elems.len(), 2);
    } else {
        panic!("Expected array");
    }
}

#[test]
fn test_explicit_null_does_not_nest() {
    // only an empty value portion marks a nested object; `key: null`
    // stays null and the deeper line is skipped
    let v = ToonParser::parse("empty: null\n    deeper: 1").unwrap();
    if let Value::Object(obj) = v {
        assert_eq!(obj.get("empty"), Some(&Value::Null));
        assert_eq!(obj.len(), 1);
    } else {
        panic!("Expected object");
    }
    // an empty value portion with a deeper next line nests
    let v = ToonParser::parse("user:\n  name: \"A\"").unwrap();
    if let Value::Object(obj) = v {
        if let Some(Value::Object(user)) = obj.get("user") {
            assert_eq!(user.get("name"), Some(&Value::String("A".to_string())));
        } else {
            panic!("Expected nested object");
        }
    } else {
        panic!("Expected object");
    }
}

#[test]
fn test_unicode_whitespace_trimmed() {
    // detection trims Unicode whitespace, as str::trim does
    assert_eq!(Parser::detect_format("\u{a0}{\"a\": 1}"), InputFormat::Json);
}

#[test]
fn test_empty_input_is_empty_object() {
    let v = ToonParser::parse("").unwrap();
    assert_eq!(v, Value::Object(Entries::new()));
    let v = ToonParser::parse("# only a comment\n\n").unwrap();
    assert_eq!(v, Value::Object(Entries::new()));
}

#[test]
fn test_over_indented_lines_are_skipped() {
    // a line more indented than expected is consumed, not interpreted
    let v = ToonParser::parse("    a: 1").unwrap();
    assert_eq!(v, Value::Object(Entries::new()));
}

#[test]
fn test_table_extra_rows_not_consumed() {
    let input = "users[1]:\n  - id: 1\n  - id: 2";
    let v = ToonParser::parse(input).unwrap();
    if let Value::Object(obj) = v {
        let table = obj.get("users").unwrap().as_table().unwrap();
        assert_eq!(table.rows.len(), 1);
        assert_eq!(table.rows[0].get("id"), Some(&Value::Number("1".to_string())));
    } else {
        panic!("Expected object");
    }
}

#[test]
fn test_entries_insert_overwrites() {
    let mut e = Entries::new();
    e.insert("k".to_string(), Value::Number("1".to_string()));
    e.insert("k".to_string(), Value::Number("2".to_string()));
    assert_eq!(e.len(), 1);
    assert_eq!(e.get("k"), Some(&Value::Number("2".to_string())));
    assert_eq!(e.get("missing"), None);
    assert!(!e.is_empty());
}

#[test]
fn test_value_accessors() {
    let t = Table { name: "t".to_string(), declared_rows: 0, rows: vec![] };
    let tv = Value::Table(t);
    assert!(tv.is_table());
    assert!(tv.as_table().is_some());
    assert!(tv.as_object().is_none());
    let ov = Value::Object(Entries::new());
    assert!(!ov.is_table());
    assert!(ov.as_object().is_some());
    assert!(ov.as_table().is_none());
}

#[test]
fn test_table_header_shapes() {
    assert_eq!(
        ToonParser::parse_table_header("users[2]:"),
        Some(("users".to_string(), 2))
    );
    assert_eq!(
        ToonParser::parse_table_header("  items [ 10 ]:"),
        Some(("items".to_string(), 10))
    );
    assert_eq!(ToonParser::parse_table_header("no brackets:"), None);
    assert_eq!(ToonParser::parse_table_header("name[x]:"), None);
    // the count must fit in a usize
    assert_eq!(
        ToonParser::parse_table_header("t[99999999999999999999999]:"),
        None
    );
    assert_eq!(ToonParser::count_indent("   x"), 3);
}
