//! What a validator reports.

use compact_str::CompactString;
use scon::value::SconMap;
use scon::{ValidationMode, Validator, Value};

fn obj(pairs: Vec<(&str, Value)>) -> Value {
    let mut map = SconMap::new();
    for (k, v) in pairs {
        map.insert(CompactString::from(k), v);
    }
    Value::Object(map)
}

#[test]
fn a_root_that_is_no_compound() {
    let r = Validator::new(ValidationMode::Strict).validate(&Value::Null);
    assert!(!r.valid);
    assert_eq!(r.errors, vec!["Root value must be an object or array"]);
    assert_eq!(r.mode, ValidationMode::Strict);
    assert_eq!(r.enforce, None);
    let w = Validator::new(ValidationMode::Warn).validate(&Value::Null);
    assert!(w.valid);
    assert_eq!(w.warnings, vec!["Root value must be an object or array"]);
    let l = Validator::new(ValidationMode::Loose).validate(&Value::Null);
    assert!(l.valid && l.warnings.is_empty() && l.errors.is_empty());
}

#[test]
fn what_a_specification_asks_for() {
    let part = obj(vec![("info", obj(vec![("title", Value::Null)]))]);
    let r = Validator::new(ValidationMode::Strict).with_enforce("openapi:3.0").validate(&part);
    assert_eq!(
        r.errors,
        vec![
            "Missing required field per openapi:3.0: openapi",
            "Missing required field per openapi:3.0: paths",
            "Missing required field per openapi:3.0: info.version",
        ]
    );
    assert_eq!(r.enforce, Some("openapi:3.0".to_string()));
    let w = Validator::new(ValidationMode::Warn).with_enforce("openapi:3.0").validate(&part);
    assert!(w.valid && w.errors.is_empty());
    assert_eq!(w.warnings, r.errors);
    let l = Validator::new(ValidationMode::Loose).with_enforce("openapi:3.0").validate(&part);
    assert!(l.valid && l.errors.is_empty() && l.warnings.is_empty());
    let other = Validator::new(ValidationMode::Strict).with_enforce("other").validate(&obj(vec![]));
    assert!(other.valid);
}

#[test]
fn an_empty_schema() {
    let r = Validator::new(ValidationMode::Warn).validate_schema("X", &obj(vec![]));
    assert_eq!(r.warnings, vec!["Schema 'X' is empty"]);
    let ok = Validator::new(ValidationMode::Strict).validate_schema("X", &Value::Array(vec![]));
    assert!(ok.valid);
}

#[test]
fn fields_of_a_schema() {
    let schema = obj(vec![("b!", Value::Null), ("c", Value::Null), ("d!!", Value::Null)]);
    let data = obj(vec![("c", Value::Null), ("x", Value::Null), ("d", Value::Null)]);
    let strict = Validator::new(ValidationMode::Strict).validate_against_schema(&data, &schema, "a");
    assert_eq!(
        strict.errors,
        vec![
            "Missing required field: a.b",
            "Missing required field: a.d!",
            "Extra field not in schema: a.x",
        ]
    );
    let warn = Validator::new(ValidationMode::Warn).validate_against_schema(&data, &schema, "");
    assert_eq!(
        warn.warnings,
        vec!["Missing required field: b", "Missing required field: d!", "Extra field: x"]
    );
    assert!(warn.valid);
    let loose = Validator::new(ValidationMode::Loose).validate_against_schema(&data, &schema, "");
    assert!(loose.valid && loose.warnings.is_empty());
}

#[test]
fn only_objects_are_held_against_a_schema() {
    let r = Validator::new(ValidationMode::Strict).validate_against_schema(&Value::Null, &obj(vec![("b!", Value::Null)]), "");
    assert!(r.valid && r.errors.is_empty());
}
