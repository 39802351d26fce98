use std::collections::HashMap;
use std::mem;
use valu3::{DateTime, Float, JsonMode, Number, Object, ToValueBehavior, Value};

fn object(entries: Vec<(&str, Value)>) -> Value {
    let mut o = Object::new();
    for (k, v) in entries {
        o.insert(k.to_string(), v);
    }
    Value::Object(o)
}

fn object_of<T: ToValueBehavior>(map: &HashMap<String, T>) -> Value {
    let mut o = Object::new();
    for (k, v) in map {
        o.insert(k.clone(), v.to_value());
    }
    Value::Object(o)
}

#[test]
fn test_json_null() {
    let null = Value::Null;
    assert_eq!(null, Value::Null);
}

#[test]
fn test_json_booleans() {
    let bool_true = true.to_value();
    assert_eq!(bool_true, Value::from(true));

    let bool_false = false.to_value();
    assert_eq!(bool_false, Value::from(false));
}

#[test]
fn test_null() {
    let value = Value::Null;
    assert_eq!(value, Value::Null);
    assert!(matches!(value, Value::Null));
}

#[test]
fn test_boolean_values() {
    let true_val = true.to_value();
    let false_val = false.to_value();

    assert_eq!(true_val, Value::Boolean(true));
    assert_eq!(false_val, Value::Boolean(false));
    assert!(matches!(true_val, Value::Boolean(true)));
    assert!(matches!(false_val, Value::Boolean(false)));
}

#[test]
fn stress_test_wide_object() {
    let key_count = 1000;

    let mut values = HashMap::new();
    for i in 0..key_count {
        values.insert(format!("key_{}", i), format!("value_{}", i));
    }

    let obj = object_of(&values);

    if let Value::Object(map) = &obj {
        for i in 0..key_count {
            let key = format!("key_{}", i);
            assert!(map.contains_key(&key));
        }
    }
}

#[test]
fn memory_usage_estimation() {
    println!("Memory usage estimation:");
    println!("  Value enum: {} bytes", mem::size_of::<Value>());
    println!("  String: {} bytes", mem::size_of::<String>());
    println!("  i32: {} bytes", mem::size_of::<i32>());
    println!("  f64: {} bytes", mem::size_of::<f64>());
    println!("  bool: {} bytes", mem::size_of::<bool>());

    let simple = 42.to_value();
    let string = "hello world".to_value();
    let array = vec![1, 2, 3, 4, 5].to_value();
    let object = object(vec![("key", "value".to_value()), ("number", 42.to_value())]);

    println!("  Simple number: ~{} bytes", mem::size_of_val(&simple));
    println!("  String value: ~{} bytes", mem::size_of_val(&string));
    println!("  Array value: ~{} bytes", mem::size_of_val(&array));
    println!("  Object value: ~{} bytes", mem::size_of_val(&object));
}

#[test]
fn test_type_inference() {
    let obj = object(vec![
        ("auto_int", 42.to_value()),
        ("auto_float", Value::Number(Number::F64(Float::finite(false, 314, -2)))),
        ("auto_string", "hello".to_value()),
        ("auto_bool", true.to_value()),
        ("auto_array", vec![1, 2, 3].to_value()),
        ("auto_null", Value::Null),
    ]);

    if let Value::Object(map) = obj {
        assert!(matches!(map.get("auto_int").unwrap(), Value::Number(_)));
        assert!(matches!(map.get("auto_float").unwrap(), Value::Number(_)));
        assert!(matches!(map.get("auto_string").unwrap(), Value::String(_)));
        assert!(matches!(map.get("auto_bool").unwrap(), Value::Boolean(_)));
        assert!(matches!(map.get("auto_array").unwrap(), Value::Array(_)));
        assert!(matches!(map.get("auto_null").unwrap(), Value::Null));
    } else {
        panic!("Expected object");
    }
}

#[test]
fn test_json_to_string_roundtrip() {
    let original = object(vec![
        ("name", "integration_test".to_value()),
        ("values", vec![1, 2, 3, 4, 5].to_value()),
        (
            "metadata",
            object(vec![
                ("version", "1.0".to_value()),
                ("stable", true.to_value()),
                ("tags", vec!["test".to_value(), "json".to_value(), "macro".to_value()].to_value()),
            ]),
        ),
        (
            "config",
            object(vec![
                ("timeout", 30.to_value()),
                ("retries", 3.to_value()),
                ("debug", false.to_value()),
            ]),
        ),
    ]);

    let json_string = original.to_json(JsonMode::Inline);

    assert!(json_string.contains("integration_test"));
    assert!(json_string.contains("[1,2,3,4,5]") || json_string.contains("[1, 2, 3, 4, 5]"));
    assert!(json_string.contains("\"stable\":true") || json_string.contains("\"stable\": true"));

    if let Ok(parsed) = Value::json_to_value(&json_string) {
        if let Value::Object(map) = &parsed {
            assert!(map.contains_key(&"name"));
            assert!(map.contains_key(&"values"));
            assert!(map.contains_key(&"metadata"));
            assert!(map.contains_key(&"config"));
        } else {
            panic!("Expected object after parsing");
        }
    } else {
        panic!("JSON parsing failed");
    }
}

#[test]
fn test_macro_with_references() {
    let data = vec![1, 2, 3, 4, 5];
    let name = String::from("test");

    let obj = object(vec![
        ("data_ref", data.clone().to_value()),
        ("name_ref", name.clone().to_value()),
        ("slice", data[1..4].to_vec().to_value()),
        ("borrowed_str", name.as_str().to_value()),
    ]);

    if let Value::Object(map) = obj {
        assert!(map.contains_key(&"data_ref"));
        assert!(map.contains_key(&"name_ref"));
        assert!(map.contains_key(&"slice"));
        assert!(map.contains_key(&"borrowed_str"));
    }
}

#[test]
fn test_object_with_all_types() {
    let obj = object(vec![
        ("null", Value::Null),
        ("boolean", true.to_value()),
        ("integer", 42.to_value()),
        ("float", Value::Number(Number::F64(Float::finite(false, 314, -2)))),
        ("string", "hello".to_value()),
        ("array", vec![1, 2, 3].to_value()),
        ("object", object(vec![("nested", "value".to_value())])),
    ]);

    if let Value::Object(map) = obj {
        assert!(map.contains_key(&"null"));
        assert!(map.contains_key(&"boolean"));
        assert!(map.contains_key(&"integer"));
        assert!(map.contains_key(&"float"));
        assert!(map.contains_key(&"string"));
        assert!(map.contains_key(&"array"));
        assert!(map.contains_key(&"object"));
    } else {
        panic!("Expected object");
    }
}

#[test]
fn test_large_array() {
    let large_vec: Vec<i32> = (0..1000).collect();
    let arr = large_vec.to_value();

    if let Value::Array(array) = arr {
        assert_eq!(array.len(), 1000);
    } else {
        panic!("Expected array");
    }
}

#[test]
fn test_many_object_keys() {
    let mut values = HashMap::new();
    for i in 0..100 {
        values.insert(format!("key_{}", i), i);
    }

    let obj = object_of(&values);

    if let Value::Object(map) = obj {
        assert_eq!(map.len(), 100);
        assert!(map.contains_key(&"key_0"));
        assert!(map.contains_key(&"key_99"));
    } else {
        panic!("Expected object");
    }
}

#[test]
fn test_json_roundtrip() {
    let original = object(vec![
        ("string", "hello".to_value()),
        ("number", 42.to_value()),
        ("boolean", true.to_value()),
        ("null", Value::Null),
        ("array", vec![1, 2, 3].to_value()),
        ("object", object(vec![("nested", "value".to_value())])),
    ]);

    let json_str = original.to_json(JsonMode::Inline);

    let parsed = Value::json_to_value(&json_str).unwrap();
    assert_eq!(original, parsed);
}

#[test]
fn test_type_consistency() {
    let obj = object(vec![
        ("integer", 42.to_value()),
        ("float", Value::Number(Number::F64(Float::finite(false, 42, 0)))),
        ("string", "42".to_value()),
        ("boolean", true.to_value()),
        ("null", Value::Null),
    ]);

    if let Value::Object(map) = obj {
        assert!(matches!(map.get("integer").unwrap(), Value::Number(_)));
        assert!(matches!(map.get("float").unwrap(), Value::Number(_)));
        assert!(matches!(map.get("string").unwrap(), Value::String(_)));
        assert!(matches!(map.get("boolean").unwrap(), Value::Boolean(_)));
        assert!(matches!(map.get("null").unwrap(), Value::Null));
    } else {
        panic!("Expected object");
    }
}

#[test]
fn it_should_convert_a_value_to_json_string() {
    let value_str = Value::json_to_value("{\"name\":\"John Doe\"}").unwrap();
    let value_number = Value::json_to_value("{\"age\":30}").unwrap();
    let value_boolean = Value::json_to_value("{\"is_active\":true}").unwrap();

    assert_eq!(
        "{\n  \"name\": \"John Doe\"\n}",
        value_str.to_json(JsonMode::Indented)
    );
    assert_eq!(
        "{\n  \"age\": 30\n}",
        value_number.to_json(JsonMode::Indented)
    );
    assert_eq!(
        "{\n  \"is_active\": true\n}",
        value_boolean.to_json(JsonMode::Indented)
    );
}

#[test]
fn it_should_complex_string() {
    let string = r#"1 1763496849266 https://mercado.carrefour.com.br/mapa-do-site/1 <!DOCTYPE html><html lang="pt-BR"><head><link href="https://cdn-prod.securiti.ai/consent/cookie-consent-latest.css" rel="stylesheet"><meta charset="utf-8"><meta name="viewport" content="width=device-width, initial-scale=1.0, maximum-scale=1.0,user-scalable=0"><title>Mapa do Site | Supermercado Carrefour</title><meta name="robots" content="index,follow"><meta name="description" content="O Carrefour também tem supermercado online! Faça sua lista de compras e aproveite nosso delivery. Aproveite!"><meta property="og:title" content="Mercado Carrefour: Ofertas de Supermercado Delivery"><meta property="og:description" content="O Carrefour também tem supermercado online! Faça sua lista de compras e aproveite nosso delivery. Aproveite!"><meta property="og:url" content="https://mercado.carrefour.com.br"><meta property="og:type" content="website"><link rel="canonical" href="https://mercado.carrefour.com.br"><meta name="next-head-count" content="10"><meta name="google-site-verification" content="GjAwJWf5U8gd7i0Tg-Dqz8LE0qi4RWdMWxfwsd-EgOY"><meta name="facebook-domain-verification" content="ym08vcfms00jx3fkqdkgqgsxrxbi8f"><meta name="facebook-domain-verification" content="ym08vcfms00jx3fkqdkgqgsxrxbi8f"><link rel="preconnect" href="https://fonts.googleapis.com"><link rel="preload" href="https://fonts.googleapis.com"><link href="https://fonts.googleapis.com/css2?family=Ubuntu:ital,wght@0,300;0,400;0,500;0,700;1,300;1,400;1,500;1,700&amp;display=swap" rel="preload"><link href="https://fonts.googleapis.com/css2?family=Lato:ital,wght@0,700;1,300&amp;display=swap" rel="preload"><link rel="preload" href="/_next/static/css/4a6cfdceadc6be2d.css" as="style"><link rel="stylesheet" href="/_next/static/css/4a6cfdceadc6be2d.css" data-n-g=""><link rel="preload" href="/_next/static/css/d2bb7ebb3aa1fe96.css" as="style"><link rel="stylesheet" href="/_next/static/css/d2bb7ebb3aa1fe96.css" data-n-p=""><noscript data-n-css=""></noscript><script defer="" nomodule="" src="/_next/static/chunks/polyfills-c67a75d1b6f99dc8.js"></script><script data-partytown-config="">"#;
    let value = Value::String(string.to_string());
    let json_output = value.to_json(JsonMode::Indented);
    let expected = r#""1 1763496849266 https://mercado.carrefour.com.br/mapa-do-site/1 <!DOCTYPE html><html lang=\"pt-BR\"><head><link href=\"https://cdn-prod.securiti.ai/consent/cookie-consent-latest.css\" rel=\"stylesheet\"><meta charset=\"utf-8\"><meta name=\"viewport\" content=\"width=device-width, initial-scale=1.0, maximum-scale=1.0,user-scalable=0\"><title>Mapa do Site | Supermercado Carrefour</title><meta name=\"robots\" content=\"index,follow\"><meta name=\"description\" content=\"O Carrefour também tem supermercado online! Faça sua lista de compras e aproveite nosso delivery. Aproveite!\"><meta property=\"og:title\" content=\"Mercado Carrefour: Ofertas de Supermercado Delivery\"><meta property=\"og:description\" content=\"O Carrefour também tem supermercado online! Faça sua lista de compras e aproveite nosso delivery. Aproveite!\"><meta property=\"og:url\" content=\"https://mercado.carrefour.com.br\"><meta property=\"og:type\" content=\"website\"><link rel=\"canonical\" href=\"https://mercado.carrefour.com.br\"><meta name=\"next-head-count\" content=\"10\"><meta name=\"google-site-verification\" content=\"GjAwJWf5U8gd7i0Tg-Dqz8LE0qi4RWdMWxfwsd-EgOY\"><meta name=\"facebook-domain-verification\" content=\"ym08vcfms00jx3fkqdkgqgsxrxbi8f\"><meta name=\"facebook-domain-verification\" content=\"ym08vcfms00jx3fkqdkgqgsxrxbi8f\"><link rel=\"preconnect\" href=\"https://fonts.googleapis.com\"><link rel=\"preload\" href=\"https://fonts.googleapis.com\"><link href=\"https://fonts.googleapis.com/css2?family=Ubuntu:ital,wght@0,300;0,400;0,500;0,700;1,300;1,400;1,500;1,700&amp;display=swap\" rel=\"preload\"><link href=\"https://fonts.googleapis.com/css2?family=Lato:ital,wght@0,700;1,300&amp;display=swap\" rel=\"preload\"><link rel=\"preload\" href=\"/_next/static/css/4a6cfdceadc6be2d.css\" as=\"style\"><link rel=\"stylesheet\" href=\"/_next/static/css/4a6cfdceadc6be2d.css\" data-n-g=\"\"><link rel=\"preload\" href=\"/_next/static/css/d2bb7ebb3aa1fe96.css\" as=\"style\"><link rel=\"stylesheet\" href=\"/_next/static/css/d2bb7ebb3aa1fe96.css\" data-n-p=\"\"><noscript data-n-css=\"\"></noscript><script defer=\"\" nomodule=\"\" src=\"/_next/static/chunks/polyfills-c67a75d1b6f99dc8.js\"></script><script data-partytown-config=\"\">""#;

    assert_eq!(json_output, expected);
}
