use toon_validate::{Entries, Table, Validator, Value};

#[test]
fn test_validate_primitives() {
    assert!(Validator::validate(&Value::Null).is_ok());
    assert!(Validator::validate(&Value::Bool(true)).is_ok());
    assert!(Validator::validate(&Value::Number("42".to_string())).is_ok());
    assert!(Validator::validate(&Value::String("test".to_string())).is_ok());
}

#[test]
fn test_validate_array() {
    let arr = Value::Array(vec![
        Value::Number("1".to_string()),
        Value::Number("2".to_string()),
        Value::String("test".to_string()),
    ]);
    assert!(Validator::validate(&arr).is_ok());
}

#[test]
fn test_validate_object() {
    let mut obj = Entries::new();
    obj.insert("name".to_string(), Value::String("Alice".to_string()));
    obj.insert("age".to_string(), Value::Number("30".to_string()));
    obj.insert("active".to_string(), Value::Bool(true));
    let value = Value::Object(obj);

    assert!(Validator::validate(&value).is_ok());
}

#[test]
fn test_validate_table_correct_rows() {
    let mut row1 = Entries::new();
    row1.insert("id".to_string(), Value::Number("1".to_string()));
    row1.insert("name".to_string(), Value::String("Alice".to_string()));

    let mut row2 = Entries::new();
    row2.insert("id".to_string(), Value::Number("2".to_string()));
    row2.insert("name".to_string(), Value::String("Bob".to_string()));

    let table = Table { name: "users".to_string(), declared_rows: 2, rows: vec![row1, row2] };

    assert!(Validator::validate(&Value::Table(table)).is_ok());
}

#[test]
fn test_validate_table_row_mismatch() {
    let mut row1 = Entries::new();
    row1.insert("id".to_string(), Value::Number("1".to_string()));

    let table = Table {
        name: "users".to_string(),
        declared_rows: 3, // Declared 3 but only 1 row
        rows: vec![row1],
    };

    let result = Validator::validate(&Value::Table(table));
    assert!(result.is_err());
    if let Err(e) = result {
        let error_msg = e.message();
        assert!(error_msg.contains("declared"));
        assert!(error_msg.contains("3"));
        assert!(error_msg.contains("1"));
    }
}

#[test]
fn test_validate_table_schema_inconsistent() {
    let mut row1 = Entries::new();
    row1.insert("id".to_string(), Value::Number("1".to_string()));
    row1.insert("name".to_string(), Value::String("Alice".to_string()));

    let mut row2 = Entries::new();
    row2.insert("id".to_string(), Value::Number("2".to_string()));
    row2.insert("email".to_string(), Value::String("bob@example.com".to_string()));
    // Missing "name" field, has extra "email" field

    let table = Table { name: "users".to_string(), declared_rows: 2, rows: vec![row1, row2] };

    let result = Validator::validate(&Value::Table(table));
    assert!(result.is_err());
    if let Err(e) = result {
        let error_msg = e.message();
        assert!(error_msg.contains("different schema"));
    }
}

#[test]
fn test_check_structure_empty() {
    let obj = Value::Object(Entries::new());
    let issues = Validator::check_structure(&obj);
    assert_eq!(issues.len(), 1);
    assert!(issues[0].contains("Empty object"));

    let arr = Value::Array(vec![]);
    let issues = Validator::check_structure(&arr);
    assert_eq!(issues.len(), 1);
    assert!(issues[0].contains("Empty array"));
}

#[test]
fn test_check_structure_nested() {
    let mut inner = Entries::new();
    inner.insert("empty".to_string(), Value::Array(vec![]));

    let mut obj = Entries::new();
    obj.insert("nested".to_string(), Value::Object(inner));

    let value = Value::Object(obj);
    let issues = Validator::check_structure(&value);

    assert_eq!(issues.len(), 1);
    assert!(issues[0].contains("nested.empty"));
    assert!(issues[0].contains("Empty array"));
}

#[test]
fn test_check_structure_table_empty() {
    let table = Table { name: "users".to_string(), declared_rows: 5, rows: vec![] };

    let mut obj = Entries::new();
    obj.insert("users".to_string(), Value::Table(table));

    let value = Value::Object(obj);
    let issues = Validator::check_structure(&value);

    assert_eq!(issues.len(), 1);
    assert!(issues[0].contains("declared with 5 rows but is empty"));
}
