//! Hashes, the index of repeated parts, and differences.

use compact_str::CompactString;
use scon::value::SconMap;
use scon::{DiffEntry, DiffKind, TreeHash, Value};

fn s(v: &str) -> Value {
    Value::String(CompactString::from(v))
}

fn n(v: i64) -> Value {
    Value::Integer(v)
}

fn f(t: &str) -> Value {
    Value::Float(scon::Float::new(t).unwrap())
}

fn obj(pairs: Vec<(&str, Value)>) -> Value {
    let mut map = SconMap::new();
    for (k, v) in pairs {
        map.insert(CompactString::from(k), v);
    }
    Value::Object(map)
}

fn xxh(t: &str) -> String {
    format!("{:032x}", xxhash_rust::xxh3::xxh3_128(t.as_bytes()))
}

#[test]
fn hashes_of_primitives() {
    assert_eq!(TreeHash::hash(&Value::Null), xxh("\u{0}"));
    assert_eq!(TreeHash::hash(&Value::Bool(true)), xxh("\u{1}\u{1}"));
    assert_eq!(TreeHash::hash(&Value::Bool(false)), xxh("\u{1}\u{0}"));
    assert_eq!(TreeHash::hash(&n(-5)), xxh("\u{2}-5"));
    assert_eq!(TreeHash::hash(&f("1.50")), xxh("\u{3}1.5"));
    assert_eq!(TreeHash::hash(&f("1.0")), xxh("\u{3}1"));
    assert_eq!(TreeHash::hash(&s("a")), xxh("\u{4}a"));
}

#[test]
fn hashes_of_compounds() {
    assert_eq!(TreeHash::hash(&Value::Array(vec![])), xxh("A:0"));
    assert_eq!(TreeHash::hash(&obj(vec![])), xxh("O:0"));
    assert_eq!(TreeHash::hash(&Value::Array(vec![n(1), s("x")])), xxh("A:2|\u{2}1|\u{4}x"));
    let inner = xxh("A:0");
    assert_eq!(
        TreeHash::hash(&obj(vec![("b", Value::Array(vec![])), ("a", n(1))])),
        xxh(&format!("O:2|a:\u{2}1|b:{}", inner))
    );
}

#[test]
fn hashes_ignore_the_order_of_entries() {
    let a = obj(vec![("x", n(1)), ("y", obj(vec![("p", n(2)), ("q", n(3))]))]);
    let b = obj(vec![("y", obj(vec![("q", n(3)), ("p", n(2))])), ("x", n(1))]);
    assert_eq!(TreeHash::hash(&a), TreeHash::hash(&b));
    assert_ne!(TreeHash::hash(&n(1)), TreeHash::hash(&f("1.0")));
}

#[test]
fn hashes_are_hexadecimal() {
    let h = TreeHash::hash(&obj(vec![("k", s("v"))]));
    assert_eq!(h.len(), 32);
    assert!(h.chars().all(|c| c.is_ascii_digit() || ('a'..='f').contains(&c)));
}

#[test]
fn repeated_parts_are_counted() {
    let part = obj(vec![("t", s("o")), ("n", n(1))]);
    let data = obj(vec![
        ("a", part.clone()),
        ("l", Value::Array(vec![part.clone(), n(3), obj(vec![("one", n(1))])])),
        ("b", obj(vec![("deep", part.clone())])),
    ]);
    let r = TreeHash::hash_tree(&data, "", 2, false);
    assert_eq!(r.index.len(), 1);
    let e = r.index.get(&xxh("{\"n\":1,\"t\":\"o\"}")).unwrap();
    assert_eq!(e.count, 3);
    assert_eq!(e.path, "a");
    assert_eq!(e.data, part);
    assert_eq!(
        r.root_hash,
        xxh("{\"a\":{\"n\":1,\"t\":\"o\"},\"b\":{\"deep\":{\"n\":1,\"t\":\"o\"}},\"l\":[{\"n\":1,\"t\":\"o\"},3,{\"one\":1}]}")
    );
}

#[test]
fn paths_lead_through_lists() {
    let data = Value::Array(vec![
        obj(vec![("x", Value::Array(vec![obj(vec![("y", n(1))])]))]),
        obj(vec![("z", obj(vec![("w", n(2))]))]),
    ]);
    let r = TreeHash::hash_tree(&data, "root", 1, true);
    let paths: Vec<String> = r.index.values().iter().map(|e| e.path.clone()).collect();
    assert_eq!(paths, vec!["root.[0]", "root.[0].x.[0]", "root.[1]", "root.[1].z"]);
    let bare = TreeHash::hash_tree(&data, "", 1, true);
    assert_eq!(bare.index.values()[1].path, "[0].x.[0]");
}

#[test]
fn equal_values() {
    assert!(TreeHash::equals(&obj(vec![("a", n(1)), ("b", n(2))]), &obj(vec![("b", n(2)), ("a", n(1))])));
    assert!(!TreeHash::equals(&n(1), &f("1.0")));
    assert!(TreeHash::equals(&f("NaN"), &f("NaN")));
}

#[test]
fn differences_have_paths() {
    let a = obj(vec![
        ("same", n(1)),
        ("gone", n(2)),
        ("in", obj(vec![("x", n(3)), ("y", n(4))])),
        ("kind", obj(vec![])),
    ]);
    let b = obj(vec![
        ("in", obj(vec![("x", n(5)), ("y", n(4))])),
        ("same", n(1)),
        ("kind", n(0)),
        ("new", s("v")),
    ]);
    let change = |path: &str, kind: DiffKind| DiffEntry { path: path.to_string(), kind };
    assert_eq!(
        TreeHash::diff(&a, &b, ""),
        vec![
            change("gone", DiffKind::Removed(n(2))),
            change("in.x", DiffKind::Changed { old: n(3), new: n(5) }),
            change("kind", DiffKind::Changed { old: obj(vec![]), new: n(0) }),
            change("new", DiffKind::Added(s("v"))),
        ]
    );
    assert_eq!(TreeHash::diff(&a, &a, "p"), vec![]);
    assert_eq!(
        TreeHash::diff(&n(1), &n(2), "p"),
        vec![change("p", DiffKind::Changed { old: n(1), new: n(2) })]
    );
    assert_eq!(
        TreeHash::diff(&obj(vec![("k", n(1))]), &obj(vec![]), "p.q"),
        vec![change("p.q.k", DiffKind::Removed(n(1)))]
    );
}
