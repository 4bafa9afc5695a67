//! Values and maps: what they hold, how they compare, and how they are shown.

use compact_str::CompactString;
use scon::value::SconMap;
use scon::Value;

fn s(v: &str) -> Value {
    Value::String(CompactString::from(v))
}

fn f(t: &str) -> Value {
    Value::Float(scon::Float::new(t).unwrap())
}

fn obj(pairs: Vec<(&str, Value)>) -> Value {
    let mut map = SconMap::new();
    for (k, v) in pairs {
        map.insert(CompactString::from(k), v);
    }
    Value::Object(map)
}

#[test]
fn map_keeps_the_order_of_insertion() {
    let mut m = SconMap::new();
    assert!(m.is_empty());
    assert_eq!(m.insert(CompactString::from("b"), Value::Integer(1)), None);
    assert_eq!(m.insert(CompactString::from("a"), Value::Integer(2)), None);
    assert_eq!(m.insert(CompactString::from("b"), Value::Integer(3)), Some(Value::Integer(1)));
    assert_eq!(m.len(), 2);
    assert_eq!(m.key_at(0), "b");
    assert_eq!(m.key_at(1), "a");
    assert_eq!(m.get("b"), Some(&Value::Integer(3)));
    assert_eq!(m.get("c"), None);
    assert!(m.contains_key("a"));
    assert!(!m.contains_key("c"));
    let (k, v) = m.get_index(1).unwrap();
    assert_eq!(k.as_str(), "a");
    assert_eq!(v, &Value::Integer(2));
    assert!(m.get_index(2).is_none());
}

#[test]
fn map_removal_shifts_the_others() {
    let mut m = SconMap::new();
    m.insert(CompactString::from("a"), Value::Integer(1));
    m.insert(CompactString::from("b"), Value::Integer(2));
    m.insert(CompactString::from("c"), Value::Integer(3));
    assert_eq!(m.shift_remove("a"), Some(Value::Integer(1)));
    assert_eq!(m.shift_remove("a"), None);
    assert_eq!(m.key_at(0), "b");
    assert_eq!(m.key_at(1), "c");
    m.clear();
    assert_eq!(m.len(), 0);
}

#[test]
fn kinds_of_values() {
    assert!(Value::Null.is_primitive());
    assert!(s("x").is_primitive());
    assert!(!Value::Array(vec![]).is_primitive());
    assert!(Value::Array(vec![]).is_array());
    assert!(!Value::Null.is_array());
    assert!(obj(vec![]).is_object());
    assert!(!s("{}").is_object());
}

#[test]
fn values_by_kind() {
    assert_eq!(s("hi").as_str(), Some("hi"));
    assert_eq!(Value::Integer(1).as_str(), None);
    assert_eq!(Value::Integer(-7).as_i64(), Some(-7));
    assert_eq!(f("1.5").as_i64(), None);
    assert_eq!(Value::Bool(true).as_bool(), Some(true));
    assert_eq!(Value::Null.as_bool(), None);
    assert_eq!(Value::Array(vec![Value::Null]).as_array().map(|a| a.len()), Some(1));
    assert!(Value::Null.as_array().is_none());
    assert_eq!(obj(vec![("a", Value::Null)]).as_object().map(|o| o.len()), Some(1));
    assert!(Value::Null.as_object().is_none());
}

#[test]
fn values_are_shown() {
    assert_eq!(Value::Null.to_text(), "null");
    assert_eq!(Value::Bool(false).to_text(), "false");
    assert_eq!(Value::Integer(i64::MIN).to_text(), "-9223372036854775808");
    assert_eq!(s("as it is").to_text(), "as it is");
    assert_eq!(Value::Array(vec![]).to_text(), "[Array]");
    assert_eq!(obj(vec![]).to_text(), "[Object]");
}

#[test]
fn decimals_are_shown_without_exponent() {
    assert_eq!(f("3.14").to_text(), "3.14");
    assert_eq!(f("3").to_text(), "3.0");
    assert_eq!(f("-2.50").to_text(), "-2.5");
    assert_eq!(f("1e3").to_text(), "1000.0");
    assert_eq!(f("2.5e-3").to_text(), "0.0025");
    assert_eq!(f("0.0").to_text(), "0.0");
}

#[test]
fn decimals_equal_by_number() {
    assert_eq!(f("1.50"), f("1.5"));
    assert_eq!(f("15e-1"), f("1.5"));
    assert_eq!(f("0.0"), f("-0.0"));
    assert_ne!(f("1.5"), f("1.6"));
    assert_ne!(f("1.0"), Value::Integer(1));
    assert_ne!(f("NaN"), f("NaN"));
}

#[test]
fn objects_equal_whatever_the_order() {
    let a = obj(vec![("x", Value::Integer(1)), ("y", s("t"))]);
    let b = obj(vec![("y", s("t")), ("x", Value::Integer(1))]);
    let c = obj(vec![("y", s("t"))]);
    let d = obj(vec![("y", s("t")), ("z", Value::Integer(1))]);
    assert_eq!(a, b);
    assert_ne!(a, c);
    assert_ne!(a, d);
    assert_ne!(Value::Array(vec![Value::Null]), Value::Array(vec![]));
}

#[test]
fn copies_equal_the_value() {
    let v = obj(vec![
        ("list", Value::Array(vec![s("a"), f("0.25"), Value::Null])),
        ("inner", obj(vec![("k", Value::Bool(true))])),
    ]);
    assert_eq!(v.clone(), v);
}
