use toon_validate::{ToonParser, Value};

#[test]
fn test_parse_simple_values() {
    let input = "name: \"test\"\nage: 42\nactive: true\nempty: null";
    let result = ToonParser::parse(input).unwrap();

    if let Value::Object(obj) = result {
        assert_eq!(obj.get("name"), Some(&Value::String("test".to_string())));
        assert_eq!(obj.get("age"), Some(&Value::Number("42".to_string())));
        assert_eq!(obj.get("active"), Some(&Value::Bool(true)));
        assert_eq!(obj.get("empty"), Some(&Value::Null));
    } else {
        panic!("Expected object");
    }
}

#[test]
fn test_parse_nested_object() {
    let input = "user:\n  name: \"Alice\"\n  age: 30\n  settings:\n    theme: \"dark\"\n    notifications: true";
    let result = ToonParser::parse(input).unwrap();

    if let Value::Object(obj) = result {
        if let Some(Value::Object(user)) = obj.get("user") {
            assert_eq!(user.get("name"), Some(&Value::String("Alice".to_string())));
            assert_eq!(user.get("age"), Some(&Value::Number("30".to_string())));

            if let Some(Value::Object(settings)) = user.get("settings") {
                assert_eq!(settings.get("theme"), Some(&Value::String("dark".to_string())));
                assert_eq!(settings.get("notifications"), Some(&Value::Bool(true)));
            } else {
                panic!("Expected settings object");
            }
        } else {
            panic!("Expected user object");
        }
    } else {
        panic!("Expected object");
    }
}

#[test]
fn test_parse_table() {
    let input = "users[2]:\n  - id: 1\n    name: \"Alice\"\n  - id: 2\n    name: \"Bob\"";
    let result = ToonParser::parse(input).unwrap();

    if let Value::Object(obj) = result {
        if let Some(Value::Table(table)) = obj.get("users") {
            assert_eq!(table.name, "users");
            assert_eq!(table.declared_rows, 2);
            assert_eq!(table.rows.len(), 2);

            assert_eq!(table.rows[0].get("id"), Some(&Value::Number("1".to_string())));
            assert_eq!(table.rows[0].get("name"), Some(&Value::String("Alice".to_string())));
            assert_eq!(table.rows[1].get("id"), Some(&Value::Number("2".to_string())));
            assert_eq!(table.rows[1].get("name"), Some(&Value::String("Bob".to_string())));
        } else {
            panic!("Expected table, got: {:?}", obj);
        }
    } else {
        panic!("Expected object");
    }
}

#[test]
fn test_parse_array() {
    let input = "tags: [\"rust\", \"cli\", \"tool\"]\nnumbers: [1, 2, 3]";
    let result = ToonParser::parse(input).unwrap();

    if let Value::Object(obj) = result {
        if let Some(Value::Array(tags)) = obj.get("tags") {
            assert_eq!(tags.len(), 3);
            assert_eq!(tags[0], Value::String("rust".to_string()));
            assert_eq!(tags[1], Value::String("cli".to_string()));
            assert_eq!(tags[2], Value::String("tool".to_string()));
        } else {
            panic!("Expected tags array");
        }

        if let Some(Value::Array(numbers)) = obj.get("numbers") {
            assert_eq!(numbers.len(), 3);
            assert_eq!(numbers[0], Value::Number("1".to_string()));
            assert_eq!(numbers[1], Value::Number("2".to_string()));
            assert_eq!(numbers[2], Value::Number("3".to_string()));
        } else {
            panic!("Expected numbers array");
        }
    } else {
        panic!("Expected object");
    }
}

#[test]
fn test_parse_with_comments() {
    let input = "# This is a comment\nname: \"test\"\n# Another comment\nactive: true";
    let result = ToonParser::parse(input).unwrap();

    if let Value::Object(obj) = result {
        assert_eq!(obj.len(), 2);
        assert_eq!(obj.get("name"), Some(&Value::String("test".to_string())));
        assert_eq!(obj.get("active"), Some(&Value::Bool(true)));
    } else {
        panic!("Expected object");
    }
}

#[test]
fn test_table_row_count_validation() {
    let input = "users[3]:\n  - id: 1\n    name: \"Alice\"\n  - id: 2\n    name: \"Bob\"";
    let result = ToonParser::parse(input);

    assert!(result.is_err());
    if let Err(e) = result {
        let error_msg = e.message();
        assert!(error_msg.contains("declared with 3 rows but found 2"));
    }
}
