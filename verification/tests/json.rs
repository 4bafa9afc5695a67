//! Values as JSON and JSON as values.

use compact_str::CompactString;
use scon::value::{json_to_scon, scon_to_json, SconMap};
use scon::Value;

fn s(v: &str) -> Value {
    Value::String(CompactString::from(v))
}

fn obj(pairs: Vec<(&str, Value)>) -> Value {
    let mut map = SconMap::new();
    for (k, v) in pairs {
        map.insert(CompactString::from(k), v);
    }
    Value::Object(map)
}

fn text(v: &Value) -> String {
    serde_json::to_string(&scon_to_json(v)).unwrap()
}

#[test]
fn primitives_as_json() {
    assert_eq!(text(&Value::Null), "null");
    assert_eq!(text(&Value::Bool(true)), "true");
    assert_eq!(text(&Value::Integer(-5)), "-5");
    assert_eq!(text(&s("a\"b\n")), "\"a\\\"b\\n\"");
    assert_eq!(text(&Value::Float(scon::Float::new("2.5").unwrap())), "2.5");
    assert_eq!(text(&Value::Float(scon::Float::new("3").unwrap())), "3.0");
}

#[test]
fn what_json_cannot_hold_is_null() {
    assert_eq!(text(&Value::Float(scon::Float::new("NaN").unwrap())), "null");
    assert_eq!(text(&Value::Float(scon::Float::new("inf").unwrap())), "null");
}

#[test]
fn objects_as_json_go_by_key() {
    let v = obj(vec![
        ("b", Value::Array(vec![Value::Integer(1), s("x")])),
        ("a", obj(vec![("z", Value::Null)])),
    ]);
    assert_eq!(text(&v), "{\"a\":{\"z\":null},\"b\":[1,\"x\"]}");
}

#[test]
fn json_as_values() {
    let j: serde_json::Value =
        serde_json::from_str("{\"n\":null,\"i\":42,\"d\":1.5,\"l\":[true,\"t\"],\"o\":{}}").unwrap();
    let v = json_to_scon(&j);
    let want = obj(vec![
        ("n", Value::Null),
        ("i", Value::Integer(42)),
        ("d", Value::Float(scon::Float::new("1.5").unwrap())),
        ("l", Value::Array(vec![Value::Bool(true), s("t")])),
        ("o", obj(vec![])),
    ]);
    assert_eq!(v, want);
    assert_eq!(Value::from(&j), want);
    let o = v.as_object().unwrap();
    assert_eq!(o.key_at(0), "d");
    assert_eq!(o.key_at(4), "o");
}

#[test]
fn numbers_beyond_an_integer_stay_decimals() {
    let j: serde_json::Value = serde_json::from_str("18446744073709551615").unwrap();
    assert_eq!(json_to_scon(&j), Value::Float(scon::Float::new("18446744073709551615").unwrap()));
    let k: serde_json::Value = serde_json::from_str("-9223372036854775808").unwrap();
    assert_eq!(json_to_scon(&k), Value::Integer(i64::MIN));
}

#[test]
fn json_keeps_a_value_without_decimals() {
    let v = obj(vec![
        ("z", Value::Array(vec![obj(vec![("b", Value::Integer(1)), ("a", s(""))])])),
        ("a", Value::Bool(false)),
    ]);
    assert_eq!(json_to_scon(&scon_to_json(&v)), v);
}
