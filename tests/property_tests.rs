use std::cmp::Ordering;
use valu3::bridge::{
    enum_parts, newtype_variant_value, option_payload, struct_payload, tuple_payload,
    unit_variant, unit_variant_value, visit_of, MapCollector, MapCursor, SeqCollector, SeqCursor,
    StructVariantCollector, TupleVariantCollector, Visit,
};
use valu3::{
    DateTime, Error, Float, JsonMode, Number, NumberType, Object, SerdeValueError,
    ToValueBehavior, Value,
};

fn object(entries: Vec<(&str, Value)>) -> Value {
    let mut o = Object::new();
    for (k, v) in entries {
        o.insert(k.to_string(), v);
    }
    Value::Object(o)
}

#[test]
fn number_widths_round_trip() {
    let n = Number::from(-5i8);
    assert_eq!(n.number_type(), NumberType::I8);
    assert_eq!(n.to_i64(), Some(-5));
    let n = Number::from(i64::MIN);
    assert_eq!(n.number_type(), NumberType::I64);
    assert_eq!(n.to_i64(), Some(i64::MIN));
    let n = Number::from(u64::MAX);
    assert_eq!(n.number_type(), NumberType::U64);
    assert_eq!(n.to_u64(), Some(u64::MAX));
    assert_eq!(n.to_i64(), None);
    let n = Number::from(i128::MIN);
    assert_eq!(n.number_type(), NumberType::I128);
    assert_eq!(n.to_i64(), None);
    assert!(n.is_i128());
    assert_eq!(n.get_i128(), i128::MIN);
    let n = Number::from(u128::MAX);
    assert_eq!(n.number_type(), NumberType::U128);
    assert!(n.is_u128());
    assert!(!n.is_i128());
    assert_eq!(n.get_u128(), u128::MAX);
    let n = Number::from(300u16);
    assert_eq!(n.to_u64(), Some(300));
    assert_eq!(Number::from(-1i32).to_u64(), None);
    let f = Number::F32(Float::finite(true, 25, -1));
    assert_eq!(f.number_type(), NumberType::F32);
    assert_eq!(f.to_i64(), None);
    assert_eq!(f.to_float().map(|x| Number::F64(x)), Some(Number::F64(Float::finite(true, 250, -2))));
}

#[test]
fn number_equality_is_by_value() {
    assert_eq!(Number::from(1), Number::from(1u64));
    assert_ne!(Number::from(1), Number::from(2u64));
    assert_eq!(Number::from(-7i8), Number::from(-7i128));
    assert_eq!(Number::F64(Float::finite(false, 100, -2)), Number::from(1u8));
    assert_eq!(Number::F64(Float::finite(false, 3, 2)), Number::from(300u16));
    assert_ne!(Number::F64(Float::finite(false, 15, -1)), Number::from(1u8));
    assert_eq!(Number::F64(Float::finite(false, 0, 5)), Number::F64(Float::finite(true, 0, 0)));
    assert_ne!(Number::F64(Float::NaN), Number::F64(Float::NaN));
    assert_eq!(
        Number::F64(Float::Infinite { negative: true }),
        Number::F64(Float::Infinite { negative: true })
    );
}

#[test]
fn json_round_trip_both_modes() {
    let original = object(vec![
        ("a", vec![Value::Null, Value::Boolean(false), "x\"y\\z\n".to_value()].to_value()),
        ("b", object(vec![("c", Value::Number(Number::from(-12i64)))])),
        ("d", Value::Array(Vec::new())),
        ("e", Value::Object(Object::new())),
        ("f", Value::Number(Number::F64(Float::finite(false, 314, -2)))),
        ("g", Value::Number(Number::from(u128::MAX))),
    ]);
    for mode in [JsonMode::Indented, JsonMode::Inline] {
        let text = original.to_json(mode);
        assert_eq!(Value::json_to_value(&text), Ok(original.clone()));
    }
}

#[test]
fn object_encodes_in_any_key_order() {
    let value = object(vec![
        ("a", Value::from(Number::from(1u64))),
        ("b", Value::from(Number::from(2u64))),
        ("c", Value::from(Number::from(3u64))),
    ]);
    let serialized = value.to_json_inline();
    let cases = [
        r#"{"a":1,"b":2,"c":3}"#,
        r#"{"a":1,"c":3,"b":2}"#,
        r#"{"b":2,"a":1,"c":3}"#,
        r#"{"b":2,"c":3,"a":1}"#,
        r#"{"c":3,"b":2,"a":1}"#,
        r#"{"c":3,"a":1,"b":2}"#,
    ];
    assert!(cases.contains(&serialized.as_str()));
    let decoded = Value::json_to_value(&serialized).unwrap();
    match &decoded {
        Value::Object(o) => {
            assert_eq!(o.len(), 3);
            assert_eq!(o.get("a"), Some(&Value::from(Number::from(1u8))));
            assert_eq!(o.get("b"), Some(&Value::from(Number::from(2u8))));
            assert_eq!(o.get("c"), Some(&Value::from(Number::from(3u8))));
        }
        _ => panic!("expected an object"),
    }
    assert_eq!(decoded, value);
    let reordered = Value::json_to_value(r#"{"c":3,"a":1,"b":2}"#).unwrap();
    assert_eq!(reordered, value);
}

#[test]
fn quotes_are_escaped_once() {
    let v = "<img src=\"x\">".to_value();
    let once = v.to_json_inline();
    assert_eq!(once, r#""<img src=\"x\">""#);
    let inner = &once[1..once.len() - 1];
    let twice = inner.to_value().to_json_inline();
    assert_eq!(twice, once);
}

#[test]
fn control_characters_and_backslashes_are_escaped() {
    let v = "a\\b\u{1}\t".to_value();
    assert_eq!(v.to_json_inline(), "\"a\\\\b\\u0001\\t\"");
}

#[test]
fn json_literals_decode_to_their_kinds() {
    assert_eq!(Value::json_to_value("null"), Ok(Value::Null));
    assert_eq!(Value::json_to_value("true"), Ok(Value::Boolean(true)));
    assert_eq!(Value::json_to_value(" false "), Ok(Value::Boolean(false)));
    match Value::json_to_value("3.14") {
        Ok(Value::Number(n)) => {
            assert_eq!(n.number_type(), NumberType::F64);
            assert_eq!(n, Number::F64(Float::finite(false, 314, -2)));
        }
        other => panic!("unexpected {:?}", other),
    }
    match Value::json_to_value("300") {
        Ok(Value::Number(n)) => assert_eq!(n.number_type(), NumberType::U16),
        other => panic!("unexpected {:?}", other),
    }
    match Value::json_to_value("-129") {
        Ok(Value::Number(n)) => assert_eq!(n.number_type(), NumberType::I16),
        other => panic!("unexpected {:?}", other),
    }
    match Value::json_to_value("1e3") {
        Ok(Value::Number(n)) => assert_eq!(n, Number::from(1000u16)),
        other => panic!("unexpected {:?}", other),
    }
}

#[test]
fn long_positional_floats_decode() {
    let big = format!("{}.0", "1".to_string() + &"0".repeat(44));
    assert_eq!(
        Value::json_to_value(&big),
        Ok(Value::Number(Number::F64(Float::finite(false, 1, 44))))
    );
    let v = Value::Number(Number::F64(Float::finite(false, 1, 44)));
    assert_eq!(Value::json_to_value(&v.to_json_inline()), Ok(v));
    let tiny = Value::Number(Number::F64(Float::finite(true, 25, -320)));
    assert_eq!(Value::json_to_value(&tiny.to_json_inline()), Ok(tiny));
    assert_eq!(
        Value::json_to_value("12.500e-1"),
        Ok(Value::Number(Number::F64(Float::finite(false, 125, -2))))
    );
}

#[test]
fn json_strings_decode_escapes() {
    assert_eq!(
        Value::json_to_value(r#""a\"b\\c\/\n\u00e9\ud83d\ude00""#),
        Ok("a\"b\\c/\né\u{1F600}".to_value())
    );
}

#[test]
fn malformed_json_is_rejected() {
    for text in ["", "[1,]", "{\"a\" 1}", "01", "tru", "\"abc", "[1] 2", "\"\\ud800\"", "1.", "-"] {
        match Value::json_to_value(text) {
            Err(Error::NonParsebleMsg(_)) | Err(Error::NonParseble) => {}
            other => panic!("{:?} gave {:?}", text, other),
        }
    }
}

#[test]
fn later_duplicate_key_wins() {
    let v = Value::json_to_value(r#"{"a":1,"a":2}"#).unwrap();
    assert_eq!(v, object(vec![("a", 2.to_value())]));
}

#[test]
fn floats_render_positionally() {
    let render = |f: Float| Value::Number(Number::F64(f)).to_json_inline();
    assert_eq!(render(Float::finite(false, 314, -2)), "3.14");
    assert_eq!(render(Float::finite(false, 1, 0)), "1.0");
    assert_eq!(render(Float::finite(true, 5, -3)), "-0.005");
    assert_eq!(render(Float::finite(false, 12, 3)), "12000.0");
    assert_eq!(render(Float::finite(true, 0, 0)), "-0.0");
    assert_eq!(render(Float::NaN), "null");
    assert_eq!(render(Float::Infinite { negative: false }), "null");
}

#[test]
fn special_values_render() {
    assert_eq!(Value::Undefined.to_json_inline(), "undefined");
    let d = DateTime { year: 2024, month: 3, day: 9, hour: 7, minute: 5, second: 0 };
    assert_eq!(Value::DateTime(d).to_json_inline(), "\"2024-03-09T07:05:00Z\"");
}

#[test]
fn indented_layout() {
    let v = object(vec![("a", vec![1, 2].to_value())]);
    assert_eq!(v.to_json_idented(), "{\n  \"a\": [\n    1,\n    2\n  ]\n}");
    assert_eq!(Value::Array(Vec::new()).to_json_idented(), "[]");
}

#[test]
fn deep_nesting_round_trips() {
    let mut v = "deep_value".to_value();
    for i in 0..40 {
        if i % 2 == 0 {
            v = Value::Array(vec![v]);
        } else {
            v = object(vec![("level", v)]);
        }
    }
    let text = v.to_json_idented();
    assert!(text.contains(&format!("\n{}\"deep_value\"", " ".repeat(80))));
    assert_eq!(Value::json_to_value(&text), Ok(v.clone()));
    assert_eq!(Value::json_to_value(&v.to_json_inline()), Ok(v));
}

#[test]
fn enum_variants_round_trip() {
    let unit = unit_variant_value("Active");
    assert_eq!(unit, "Active".to_value());
    let (name, payload) = enum_parts(unit).unwrap();
    assert_eq!(name, "Active");
    assert!(payload.is_none());
    assert_eq!(unit_variant(&payload), Ok(()));

    let explicit_null = Value::json_to_value(r#"{"Active":null}"#).unwrap();
    let (name, payload) = enum_parts(explicit_null).unwrap();
    assert_eq!(name, "Active");
    assert_eq!(unit_variant(&payload), Ok(()));

    let newtype = newtype_variant_value("Count", 7.to_value());
    assert_eq!(newtype.to_json_inline(), r#"{"Count":7}"#);
    let (name, payload) = enum_parts(newtype).unwrap();
    assert_eq!(name, "Count");
    assert_eq!(unit_variant(&payload), Err(SerdeValueError::ExpectedUnitVariant));
    let payload = valu3::bridge::newtype_payload(payload).unwrap();
    assert_eq!(payload, 7.to_value());

    let mut tuple = TupleVariantCollector::new("Pair");
    tuple.elems.push(1.to_value());
    tuple.elems.push("b".to_value());
    let tuple = tuple.finish();
    assert_eq!(tuple.to_json_inline(), r#"{"Pair":[1,"b"]}"#);
    let (_, payload) = enum_parts(tuple).unwrap();
    let elems = tuple_payload(payload).unwrap();
    assert_eq!(elems, vec![1.to_value(), "b".to_value()]);

    let mut st = StructVariantCollector::new("Point");
    st.fields.field("x", 1.to_value());
    st.fields.field("y", 2.to_value());
    let st = st.finish();
    let (_, payload) = enum_parts(st).unwrap();
    let fields = struct_payload(payload).unwrap();
    assert_eq!(fields.len(), 2);
    assert_eq!(Value::Object(Object::from_entries(fields)), object(vec![("x", 1.to_value()), ("y", 2.to_value())]));

    assert_eq!(enum_parts(Value::Null), Err(SerdeValueError::InvalidEnumShape));
    assert_eq!(
        enum_parts(object(vec![("A", Value::Null), ("B", Value::Null)])),
        Err(SerdeValueError::InvalidEnumShape)
    );
    assert_eq!(tuple_payload(None), Err(SerdeValueError::ExpectedPayloadVariant));
    assert_eq!(struct_payload(Some(1.to_value())), Err(SerdeValueError::ExpectedPayloadVariant));
}

#[test]
fn map_collector_rules() {
    let mut m = MapCollector::new();
    assert_eq!(m.value(1.to_value()), Err(SerdeValueError::ValueBeforeKey));
    assert_eq!(m.key(1.to_value()), Err(SerdeValueError::KeyMustBeString));
    assert_eq!(m.key("a".to_value()), Ok(()));
    assert_eq!(m.value(1.to_value()), Ok(()));
    assert_eq!(m.key("b".to_value()), Ok(()));
    assert_eq!(m.value(2.to_value()), Ok(()));
    assert_eq!(m.key("a".to_value()), Ok(()));
    assert_eq!(m.value(3.to_value()), Ok(()));
    let o = m.finish();
    assert_eq!(Value::Object(o), object(vec![("a", 3.to_value()), ("b", 2.to_value())]));

    let mut s = SeqCollector::new();
    s.push(1.to_value());
    s.push(Value::Null);
    assert_eq!(s.finish(), vec![1.to_value(), Value::Null].to_value());
}

#[test]
fn cursors_hand_out_in_order() {
    let mut c = SeqCursor::new(vec![1.to_value(), 2.to_value()]);
    assert_eq!(c.next(), Some(1.to_value()));
    assert_eq!(c.next(), Some(2.to_value()));
    assert_eq!(c.next(), None);

    let mut m = MapCursor::new(vec![("k".to_string(), true.to_value())]);
    assert_eq!(m.next_value(), Err(SerdeValueError::ValueBeforeKey));
    assert_eq!(m.next_key(), Some("k".to_string()));
    assert_eq!(m.next_value(), Ok(true.to_value()));
    assert_eq!(m.next_value(), Err(SerdeValueError::ValueBeforeKey));
    assert_eq!(m.next_key(), None);
}

#[test]
fn visits_dispatch_by_tag() {
    assert!(matches!(visit_of(Value::Null), Ok(Visit::Unit)));
    assert!(matches!(visit_of(Value::Undefined), Ok(Visit::Unit)));
    assert!(matches!(visit_of(Value::Number(Number::from(5u8))), Ok(Visit::U64(5))));
    assert!(matches!(visit_of(Value::Number(Number::from(-5i32))), Ok(Visit::I64(-5))));
    assert!(matches!(visit_of(Value::Number(Number::from(i128::MIN))), Ok(Visit::I128(i128::MIN))));
    assert!(matches!(visit_of(Value::Number(Number::from(u128::MAX))), Ok(Visit::U128(u128::MAX))));
    assert_eq!(
        visit_of(Value::Number(Number::Unknown)).err(),
        Some(SerdeValueError::UnknownNumberType)
    );
    match visit_of(Value::DateTime(DateTime { year: 1999, month: 12, day: 31, hour: 23, minute: 59, second: 58 })) {
        Ok(Visit::Str(s)) => assert_eq!(s, "1999-12-31T23:59:58Z"),
        other => panic!("unexpected {:?}", other),
    }
    match visit_of(object(vec![("a", 1.to_value())])) {
        Ok(Visit::Entries(es)) => assert_eq!(es, vec![("a".to_string(), 1.to_value())]),
        other => panic!("unexpected {:?}", other),
    }
    assert_eq!(option_payload(Value::Null), None);
    assert_eq!(option_payload("x".to_value()), Some("x".to_value()));
}

#[test]
fn error_messages() {
    assert_eq!(SerdeValueError::KeyMustBeString.message(), "map key must be a string");
    assert_eq!(SerdeValueError::ValueBeforeKey.message(), "value requested before key");
    assert_eq!(SerdeValueError::UnsupportedBytes.message(), "bytes not supported");
    assert_eq!(SerdeValueError::Custom("boom".to_string()).message(), "boom");
    assert_eq!(SerdeValueError::UnknownNumberType.message(), "unknown number type");
    assert_eq!(SerdeValueError::ExpectedUnitVariant.message(), "expected unit variant");
}

#[test]
fn object_insert_replaces_in_place() {
    let mut o = Object::new();
    o.insert("a".to_string(), 1.to_value());
    o.insert("b".to_string(), 2.to_value());
    o.insert("a".to_string(), 3.to_value());
    assert_eq!(o.len(), 2);
    assert_eq!(o.get("a"), Some(&3.to_value()));
    assert_eq!(o.get("z"), None);
    assert!(!o.contains_key("z"));
    let (k, _) = o.entry(0);
    assert_eq!(k, "a");
}

#[test]
fn decode_errors_name_the_place() {
    assert_eq!(
        Value::json_to_value("[1,]"),
        Err(Error::NonParsebleMsg("malformed input at character 3".to_string()))
    );
    assert_eq!(
        Value::json_to_value("   "),
        Err(Error::NonParsebleMsg("malformed input at character 3".to_string()))
    );
    assert_eq!(
        Value::yaml_to_value("a: 1\n\n- 2"),
        Err(Error::NonParsebleMsg("malformed YAML at line 3".to_string()))
    );
    assert_eq!(
        Value::yaml_to_value(" \n "),
        Err(Error::NonParsebleMsg("empty YAML document".to_string()))
    );
}

#[test]
fn floats_outside_the_double_range_are_rejected() {
    assert!(Value::json_to_value("1e2147483647").is_err());
    assert!(Value::json_to_value("1e309").is_err());
    assert!(Value::json_to_value("1e-330").is_err());
    assert!(Value::json_to_value("1.7e308").is_ok());
    assert!(Value::json_to_value("5e-324").is_ok());
    assert!(Value::json_to_value("0e99999").is_ok());
}

#[test]
fn unknown_numbers_equal_nothing_and_render_null() {
    assert_ne!(Number::Unknown, Number::Unknown);
    assert_eq!(Number::Unknown.number_type(), NumberType::Unknown);
    assert_eq!(Value::Number(Number::Unknown).to_json_inline(), "null");
    assert_eq!(Number::Unknown.to_i64(), None);
}

#[test]
fn numbers_order_by_value() {
    assert!(Number::from(1i8) < Number::from(2u64));
    assert!(Number::from(-1i64) < Number::from(0u8));
    assert!(Number::from(u128::MAX) > Number::from(i128::MIN));
    assert!(Number::F64(Float::finite(false, 25, -1)) > Number::from(2));
    assert!(Number::F64(Float::finite(false, 25, -1)) < Number::from(3));
    assert!(Number::F64(Float::finite(true, 25, -1)) < Number::F64(Float::finite(true, 2, 0)));
    assert_eq!(
        Number::F64(Float::finite(false, 300, -2)).partial_cmp(&Number::from(3u8)),
        Some(Ordering::Equal)
    );
    assert!(Number::F64(Float::finite(false, 1, 40)) > Number::from(u128::MAX));
    assert!(Number::F64(Float::Infinite { negative: true }) < Number::from(i128::MIN));
    assert!(Number::F64(Float::Infinite { negative: false }) > Number::F64(Float::finite(false, 9, 300)));
    assert_eq!(Number::F64(Float::NaN).partial_cmp(&Number::from(1)), None);
    assert_eq!(Number::Unknown.partial_cmp(&Number::from(1)), None);
}

#[test]
fn native_scalars_convert() {
    assert_eq!(true.to_value(), Value::Boolean(true));
    assert_eq!("abc".to_value(), Value::String("abc".to_string()));
    assert_eq!('x'.to_value(), Value::String("x".to_string()));
    assert_eq!('é'.to_value().to_json_inline(), "\"é\"");
    match 7u16.to_value() {
        Value::Number(n) => {
            assert_eq!(n.number_type(), NumberType::U16);
            assert_eq!(n.to_u64(), Some(7));
        }
        other => panic!("unexpected {:?}", other),
    }
}

fn nested(levels: usize) -> Value {
    let mut v = "deep_value".to_value();
    for i in 0..levels {
        v = object(vec![(&format!("level_{}", i), v)]);
    }
    v
}

#[test]
fn fifty_levels_round_trip() {
    let v = nested(50);
    for mode in [JsonMode::Indented, JsonMode::Inline] {
        assert_eq!(Value::json_to_value(&v.to_json(mode)), Ok(v.clone()));
    }
}

#[test]
fn fifty_levels_indent_by_level() {
    let text = nested(50).to_json(JsonMode::Indented);
    let mut expected: Vec<String> = vec!["{".to_string()];
    for d in 1..=49 {
        expected.push(format!("{}\"level_{}\": {{", " ".repeat(2 * d), 50 - d));
    }
    expected.push(format!("{}\"level_0\": \"deep_value\"", " ".repeat(100)));
    for d in (0..=49).rev() {
        expected.push(format!("{}}}", " ".repeat(2 * d)));
    }
    let lines: Vec<&str> = text.lines().collect();
    assert_eq!(lines.len(), 101);
    assert_eq!(lines, expected);
}
