//! Definitions, references to them, and overrides.

use compact_str::CompactString;
use scon::value::SconMap;
use scon::{decode, DefType, SchemaRegistry, Value};

fn s(v: &str) -> Value {
    Value::String(CompactString::from(v))
}

fn n(v: i64) -> Value {
    Value::Integer(v)
}

fn obj(pairs: Vec<(&str, Value)>) -> Value {
    let mut map = SconMap::new();
    for (k, v) in pairs {
        map.insert(CompactString::from(k), v);
    }
    Value::Object(map)
}

fn reference(kind: &str, name: &str) -> Value {
    obj(vec![("@ref", obj(vec![("type", s(kind)), ("name", s(name))]))])
}

#[test]
fn prefixes_name_kinds() {
    assert_eq!(DefType::from_prefix("s"), Some(DefType::Schema));
    assert_eq!(DefType::from_prefix("r"), Some(DefType::Response));
    assert_eq!(DefType::from_prefix("sec"), Some(DefType::Security));
    assert_eq!(DefType::from_prefix("x"), None);
    assert_eq!(DefType::Security.prefix(), "sec");
}

#[test]
fn stores_are_kept_apart() {
    let mut reg = SchemaRegistry::new();
    assert!(!reg.has(DefType::Schema, "A"));
    reg.register(DefType::Schema, "A", n(1));
    reg.register(DefType::Response, "A", n(2));
    assert_eq!(reg.resolve(DefType::Schema, "A"), Ok(n(1)));
    assert_eq!(reg.resolve(DefType::Response, "A"), Ok(n(2)));
    assert!(!reg.has(DefType::Security, "A"));
    assert_eq!(reg.get_all(DefType::Schema).len(), 1);
    reg.register(DefType::Schema, "A", n(3));
    assert_eq!(reg.get_all(DefType::Schema).get("A"), Some(&n(3)));
    reg.reset();
    assert!(!reg.has(DefType::Schema, "A"));
    assert!(reg.get_all(DefType::Response).is_empty());
}

#[test]
fn what_is_not_defined_cannot_be_resolved() {
    let mut reg = SchemaRegistry::new();
    assert_eq!(
        reg.resolve(DefType::Security, "Key"),
        Err("Undefined reference: @sec:Key".to_string())
    );
    assert_eq!(
        reg.resolve_with_override(DefType::Schema, "Name", &obj(vec![])),
        Err("Undefined reference: @s:Name".to_string())
    );
}

#[test]
fn references_inside_are_resolved() {
    let mut reg = SchemaRegistry::new();
    reg.register(DefType::Schema, "Leaf", obj(vec![("v", n(1))]));
    reg.register(
        DefType::Schema,
        "Tree",
        obj(vec![
            ("one", reference("s", "Leaf")),
            ("list", Value::Array(vec![obj(vec![("in", reference("s", "Leaf"))])])),
            ("odd", reference("zz", "Leaf")),
        ]),
    );
    let leaf = obj(vec![("v", n(1))]);
    assert_eq!(
        reg.resolve(DefType::Schema, "Tree"),
        Ok(obj(vec![
            ("one", leaf.clone()),
            ("list", Value::Array(vec![obj(vec![("in", leaf.clone())])])),
            ("odd", reference("zz", "Leaf")),
        ]))
    );
}

#[test]
fn a_circle_ends_in_a_marker() {
    let mut reg = SchemaRegistry::new();
    reg.register(DefType::Schema, "A", obj(vec![("b", reference("s", "B"))]));
    reg.register(DefType::Schema, "B", obj(vec![("a", reference("s", "A"))]));
    let marker = obj(vec![("$ref", s("#/definitions/A"))]);
    assert_eq!(
        reg.resolve(DefType::Schema, "A"),
        Ok(obj(vec![("b", obj(vec![("a", marker)]))]))
    );
    assert!(reg.resolve(DefType::Schema, "B").is_ok());
}

#[test]
fn a_choice_holds_all_its_parts() {
    let mut reg = SchemaRegistry::new();
    reg.register(DefType::Schema, "A", n(1));
    reg.register(DefType::Response, "B", n(2));
    let refs = Value::Array(vec![
        obj(vec![("name", s("A"))]),
        obj(vec![("type", s("r")), ("name", s("B"))]),
        n(7),
    ]);
    reg.register(DefType::Schema, "P", obj(vec![("x", obj(vec![("@polymorphic", refs)]))]));
    assert_eq!(
        reg.resolve(DefType::Schema, "P"),
        Ok(obj(vec![("x", obj(vec![("oneOf", Value::Array(vec![n(1), n(2)]))]))]))
    );
}

#[test]
fn a_broken_reference_inside_is_broken_again() {
    let mut reg = SchemaRegistry::new();
    reg.register(DefType::Schema, "A", obj(vec![("b", reference("s", "Gone"))]));
    assert_eq!(
        reg.resolve(DefType::Schema, "A"),
        Err("Undefined reference: @s:Gone".to_string())
    );
    assert_eq!(
        reg.resolve(DefType::Schema, "A"),
        Err("Undefined reference: @s:Gone".to_string())
    );
    reg.register(DefType::Schema, "Gone", n(1));
    assert_eq!(reg.resolve(DefType::Schema, "A"), Ok(obj(vec![("b", n(1))])));
}

#[test]
fn overrides_remove_set_and_merge() {
    let mut reg = SchemaRegistry::new();
    reg.register(
        DefType::Schema,
        "Base",
        obj(vec![
            ("a", n(1)),
            ("b", obj(vec![("x", n(1)), ("y", obj(vec![("z", n(2))]))])),
            ("c", n(3)),
        ]),
    );
    let overrides = obj(vec![
        ("-a", Value::Null),
        ("-b.x", Value::Null),
        ("b", obj(vec![("y", obj(vec![("w", n(5))])), ("v", n(4))])),
        ("d.e.f", n(6)),
        ("c", s("new")),
    ]);
    assert_eq!(
        reg.resolve_with_override(DefType::Schema, "Base", &overrides),
        Ok(obj(vec![
            ("b", obj(vec![("y", obj(vec![("z", n(2)), ("w", n(5))])), ("v", n(4))])),
            ("c", s("new")),
            ("d", obj(vec![("e", obj(vec![("f", n(6))]))])),
        ]))
    );
}

#[test]
fn no_overrides_change_nothing() {
    let mut reg = SchemaRegistry::new();
    reg.register(DefType::Schema, "Base", obj(vec![("a", n(1))]));
    let base = reg.resolve(DefType::Schema, "Base");
    assert_eq!(reg.resolve_with_override(DefType::Schema, "Base", &obj(vec![])), base);
    assert_eq!(reg.resolve_with_override(DefType::Schema, "Base", &n(9)), base);
}

#[test]
fn overrides_in_a_document() {
    let d = decode("s:U {id: 1, name: x}\nk: @s:U {name: y, -id: null}").unwrap();
    assert_eq!(d, obj(vec![("k", obj(vec![("name", s("y"))]))]));
}

#[test]
fn a_copy_of_a_registry_stands_alone() {
    let mut reg = SchemaRegistry::new();
    reg.register(DefType::Schema, "A", n(1));
    let copy = reg.clone();
    reg.reset();
    assert!(copy.has(DefType::Schema, "A"));
}
