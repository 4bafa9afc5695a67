//! Colons, brackets and quotes in keys, fields and the items of arrays.

use bumpalo::Bump;
use compact_str::CompactString;
use scon::value::SconMap;
use scon::{
    decode, encode, encode_with_dedup, encode_with_indent, expand, minify, BorrowedDecoder,
    BorrowedValue, Node, TapeDecoder, Value,
};

fn s(v: &str) -> Value {
    Value::String(CompactString::from(v))
}

fn obj(pairs: Vec<(&str, Value)>) -> Value {
    let mut map = SconMap::new();
    for (k, v) in pairs {
        map.insert(CompactString::from(k), v);
    }
    Value::Object(map)
}

fn owned(v: &BorrowedValue) -> Value {
    match v {
        BorrowedValue::Null => Value::Null,
        BorrowedValue::Bool(b) => Value::Bool(*b),
        BorrowedValue::Integer(n) => Value::Integer(*n),
        BorrowedValue::Float(t) => Value::Float(t.clone()),
        BorrowedValue::String(t) => s(t),
        BorrowedValue::Array(a) => Value::Array(a.iter().map(owned).collect()),
        BorrowedValue::Object(o) => {
            let mut map = SconMap::new();
            for i in 0..o.len() {
                map.insert(CompactString::from(o.key_at(i)), owned(o.value_at(i)));
            }
            Value::Object(map)
        }
    }
}

/// Holds a value against what every way of writing and reading makes of it.
fn comes_back(v: &Value) {
    let text = encode(v);
    assert_eq!(decode(&text).as_ref(), Ok(v));
    assert_eq!(decode(&encode_with_indent(v, 4)).as_ref(), Ok(v));
    assert_eq!(decode(&minify(&text)).as_ref(), Ok(v));
    assert_eq!(decode(&expand(&minify(&text), 2)).as_ref(), Ok(v));
    assert_eq!(decode(&encode_with_dedup(v)).as_ref(), Ok(v));
    let arena = Bump::new();
    assert_eq!(&owned(&BorrowedDecoder::new(&arena).decode(&text).unwrap()), v);
}

#[test]
fn colons_in_an_inline_array() {
    let v = obj(vec![("tags", Value::Array(vec![s("http://a"), s("b")]))]);
    assert_eq!(encode(&v), "tags[2]: \"http://a\", b");
    comes_back(&v);
    comes_back(&Value::Array(vec![s("a:b"), s(":"), s("c: d")]));
    assert_eq!(
        decode("k[2]: a:b, c"),
        Ok(obj(vec![("k", Value::Array(vec![s("a:b"), s("c")]))]))
    );
}

#[test]
fn colons_in_list_items() {
    let v = obj(vec![(
        "l",
        Value::Array(vec![
            s("a:b"),
            obj(vec![("k", s("c:d")), ("m:n", s("e"))]),
            s("\"quoted\": yes"),
            Value::Array(vec![s("x:y"), s("z")]),
        ]),
    )]);
    comes_back(&v);
    assert_eq!(
        decode("l:\n - \"a:b\"\n - \"k\": 1"),
        Ok(obj(vec![("l", Value::Array(vec![s("a:b"), obj(vec![("k", Value::Integer(1))])]))]))
    );
}

#[test]
fn colons_in_a_root_string() {
    for t in ["a:b", ":", "http://x/y", "a: b", "\"a\": b", "x[1]: y"] {
        let v = s(t);
        let text = encode(&v);
        assert_eq!(decode(&text).as_ref(), Ok(&v));
        let arena = Bump::new();
        assert_eq!(owned(&BorrowedDecoder::new(&arena).decode(&text).unwrap()), v);
    }
    assert_eq!(
        TapeDecoder::new().decode("\"a:b\"").unwrap().nodes,
        vec![Node::String("a:b".into())]
    );
}

#[test]
fn keys_before_an_array() {
    for k in ["a:b", "a[b", "a]b", "[1]:", "a\"b", "a\\b", "a b", "a\tb", "{", "a{b}:", "\"", ""] {
        comes_back(&obj(vec![
            (k, Value::Array(vec![Value::Integer(1), s("x:y")])),
            ("z", Value::Null),
        ]));
        comes_back(&obj(vec![(k, Value::Array(vec![s("p"), obj(vec![(k, s("q"))])]))]));
        comes_back(&obj(vec![(
            "l",
            Value::Array(vec![obj(vec![(k, Value::Array(vec![s("r"), s("t")]))]), s("u")]),
        )]));
    }
    assert_eq!(
        decode("\"a\\\"b[\"[2]: 1, 2"),
        Ok(obj(vec![("a\"b[", Value::Array(vec![Value::Integer(1), Value::Integer(2)]))]))
    );
}

#[test]
fn fields_of_a_table_in_quotes() {
    let v = obj(vec![(
        "rows",
        Value::Array(vec![
            obj(vec![("a:b", Value::Integer(1)), ("c, d", s("x:y")), ("}", s("]"))]),
            obj(vec![("a:b", Value::Integer(2)), ("c, d", s("{")), ("}", s("\""))]),
        ]),
    )]);
    assert_eq!(
        encode(&v),
        "rows[2]{\"a:b\",\"c, d\",\"}\"}:\n 1, \"x:y\", \"]\"\n 2, \"{\", \"\\\"\""
    );
    comes_back(&v);
}

#[test]
fn names_on_a_tape_are_as_they_are_written() {
    let nodes = TapeDecoder::new().decode("\"a\\tb\"[1]{\"c:\\\\d\"}:\n 1\n\"e:f\"[1]: g").unwrap().nodes;
    assert_eq!(
        nodes,
        vec![
            Node::Object(2),
            Node::Key("a\\tb".into()),
            Node::Array(1),
            Node::Object(1),
            Node::Key("c:\\\\d".into()),
            Node::Integer(1),
            Node::Key("e:f".into()),
            Node::Array(1),
            Node::String("g".into()),
        ]
    );
}
