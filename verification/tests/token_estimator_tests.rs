use toon_validate::{Entries, Table, TokenBreakdown, TokenEstimator, Value};

#[test]
fn test_estimate_primitives() {
    assert_eq!(TokenEstimator::estimate(&Value::Null), 1);
    assert_eq!(TokenEstimator::estimate(&Value::Bool(true)), 1);
    assert_eq!(TokenEstimator::estimate(&Value::Bool(false)), 2);
    assert_eq!(TokenEstimator::estimate(&Value::Number("42".to_string())), 1);
    assert_eq!(TokenEstimator::estimate(&Value::Number("12345".to_string())), 2);
}

#[test]
fn test_estimate_string() {
    assert_eq!(TokenEstimator::estimate(&Value::String("test".to_string())), 2);
    assert_eq!(TokenEstimator::estimate(&Value::String("a longer string".to_string())), 5);
}

#[test]
fn test_estimate_array() {
    let arr = Value::Array(vec![
        Value::Number("1".to_string()),
        Value::Number("2".to_string()),
        Value::Number("3".to_string()),
    ]);
    // [1, 2, 3] = 8 chars + 2 for brackets = 10 chars / 4 ≈ 3 tokens
    assert_eq!(TokenEstimator::estimate(&arr), 3);
}

#[test]
fn test_estimate_object() {
    let mut obj = Entries::new();
    obj.insert("name".to_string(), Value::String("Alice".to_string()));
    obj.insert("age".to_string(), Value::Number("30".to_string()));
    let value = Value::Object(obj);

    // Estimate should be reasonable for object
    let estimate = TokenEstimator::estimate(&value);
    assert!(estimate > 0);
    assert!(estimate < 20); // Should be reasonable for small object
}

#[test]
fn test_breakdown_simple() {
    let mut obj = Entries::new();
    obj.insert("name".to_string(), Value::String("test".to_string()));
    obj.insert("count".to_string(), Value::Number("5".to_string()));
    obj.insert("active".to_string(), Value::Bool(true));
    let value = Value::Object(obj);

    let breakdown = TokenEstimator::estimate_breakdown(&value);

    assert_eq!(breakdown.keys, 5); // 3 keys with total token count of 5
    assert_eq!(breakdown.strings, 1); // 1 string value ("test") = 1 token
    assert_eq!(breakdown.primitives, 2); // 1 number + 1 bool
    assert_eq!(breakdown.structure, 3); // object structure
    assert_eq!(breakdown.tables, 0);
    assert_eq!(breakdown.table_rows, 0);
}

#[test]
fn test_breakdown_with_table() {
    let mut row1 = Entries::new();
    row1.insert("id".to_string(), Value::Number("1".to_string()));
    row1.insert("name".to_string(), Value::String("Alice".to_string()));

    let mut row2 = Entries::new();
    row2.insert("id".to_string(), Value::Number("2".to_string()));
    row2.insert("name".to_string(), Value::String("Bob".to_string()));

    let table = Table { name: "users".to_string(), declared_rows: 2, rows: vec![row1, row2] };

    let mut obj = Entries::new();
    obj.insert("users".to_string(), Value::Table(table));
    let value = Value::Object(obj);

    let breakdown = TokenEstimator::estimate_breakdown(&value);

    assert!(breakdown.keys > 0); // table row keys
    assert!(breakdown.strings > 0); // string values in table
    assert!(breakdown.primitives > 0); // number values in table
    assert_eq!(breakdown.tables, 2); // table name tokens
    assert_eq!(breakdown.table_rows, 2); // 2 rows
}

#[test]
fn test_breakdown_total() {
    let breakdown = TokenBreakdown {
        keys: 10,
        strings: 5,
        primitives: 3,
        structure: 2,
        tables: 1,
        table_rows: 0,
    };

    assert_eq!(breakdown.total(), 21);
}
