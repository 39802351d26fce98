use valu3::{Float, Number, Object, ToValueBehavior, Value};

fn object(entries: Vec<(&str, Value)>) -> Value {
    let mut o = Object::new();
    for (k, v) in entries {
        o.insert(k.to_string(), v);
    }
    Value::Object(o)
}

#[test]
fn yaml() {
    let raw: &str = "
        test: true
        test2: \"ok\"
        test3:
          - 0
          - 1
        ";

    let compare = object(vec![
        ("test", true.to_value()),
        ("test2", "ok".to_value()),
        (
            "test3",
            Value::from(vec![
                Value::Number(Number::from(0)),
                Value::Number(Number::from(1)),
            ]),
        ),
    ]);

    assert_eq!(Value::yaml_to_value(raw), Ok(compare));
}

#[test]
fn array() {
    let raw = "
        - 0
        - true
        - null
        - \"ok\"
        ";

    let compare = {
        let mut list = Vec::new();
        list.push(Value::Number(Number::from(0)));
        list.push(Value::Boolean(true));
        list.push(Value::Null);
        list.push(Value::String(String::from("ok")));
        Value::from(list)
    };

    assert_eq!(Value::yaml_to_value(raw), Ok(compare));
}

#[test]
fn number() {
    let int = "0";
    let float = "1.0";

    assert_eq!(
        Value::yaml_to_value(int),
        Ok(Value::Number(Number::from(0)))
    );
    assert_eq!(
        Value::yaml_to_value(float),
        Ok(Value::Number(Number::F64(Float::finite(false, 1, 0))))
    );
}

#[test]
fn string() {
    let string = r#""string""#;

    assert_eq!(
        Value::yaml_to_value(string),
        Ok(Value::String(String::from("string")))
    );
}

#[test]
fn null() {
    let null = "null";

    assert_eq!(Value::yaml_to_value(null), Ok(Value::Null));
}

#[test]
fn boolean() {
    let boolean = "true";

    assert_eq!(Value::yaml_to_value(boolean), Ok(Value::Boolean(true)));
}

#[test]
fn yaml_scalars_and_sequences() {
    let pi = Value::Number(Number::F64(Float::finite(false, 314, -2)));
    assert_eq!(Value::yaml_to_value("true").unwrap(), true.to_value());
    assert_eq!(Value::yaml_to_value("3.14").unwrap(), pi.clone());
    assert_eq!(Value::yaml_to_value("test: 3.14").unwrap(), object(vec![("test", pi)]));
    assert_eq!(Value::yaml_to_value("- 1\n- 2\n- 3").unwrap(), vec![1, 2, 3].to_value());
    assert_eq!(Value::yaml_to_value("null").unwrap(), Value::Null);
    assert_eq!(Value::yaml_to_value(r#""123""#).unwrap(), "123".to_value());
}

#[test]
fn yaml_literals_have_their_kinds() {
    assert_eq!(Value::yaml_to_value("null"), Ok(Value::Null));
    assert_eq!(Value::yaml_to_value("false"), Ok(Value::Boolean(false)));
    match Value::yaml_to_value("3.14") {
        Ok(Value::Number(n)) => assert_eq!(n.number_type(), valu3::NumberType::F64),
        other => panic!("unexpected {:?}", other),
    }
    match Value::yaml_to_value("- 1\n- 2\n- 3") {
        Ok(Value::Array(items)) => {
            assert_eq!(items.len(), 3);
            assert!(items.iter().all(|v| matches!(v, Value::Number(_))));
        }
        other => panic!("unexpected {:?}", other),
    }
}

#[test]
fn yaml_nested_mappings_follow_indentation() {
    let raw = "a:\n  b:\n    c: 1\n  d: 2\ne: [1, 2]\n# a comment\nf: plain text";
    let expected = object(vec![
        (
            "a",
            object(vec![("b", object(vec![("c", 1.to_value())])), ("d", 2.to_value())]),
        ),
        ("e", vec![1, 2].to_value()),
        ("f", "plain text".to_value()),
    ]);
    assert_eq!(Value::yaml_to_value(raw), Ok(expected));
}

#[test]
fn yaml_empty_entry_is_null_and_quoted_keys_work() {
    let raw = "\"a key\": 1\nempty:";
    let expected = object(vec![("a key", 1.to_value()), ("empty", Value::Null)]);
    assert_eq!(Value::yaml_to_value(raw), Ok(expected));
}

#[test]
fn yaml_rejects_bad_structure() {
    assert!(Value::yaml_to_value("").is_err());
    assert!(Value::yaml_to_value("   \n  ").is_err());
    assert!(Value::yaml_to_value("- 1\nkey: 2").is_err());
    assert!(Value::yaml_to_value("    a: 1\n  b: 2").is_err());
    assert!(Value::yaml_to_value("- 1\n    - 2").is_err());
}
