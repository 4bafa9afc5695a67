//! What an encoder writes.

use compact_str::CompactString;
use scon::value::SconMap;
use scon::{encode, encode_to, encode_with_dedup, encode_with_indent, Encoder, Value};

fn s(v: &str) -> Value {
    Value::String(CompactString::from(v))
}

fn obj(pairs: Vec<(&str, Value)>) -> Value {
    let mut map = SconMap::new();
    for (k, v) in pairs {
        map.insert(CompactString::from(k), v);
    }
    Value::Object(map)
}

#[test]
fn primitives_at_the_root() {
    assert_eq!(encode(&Value::Null), "null");
    assert_eq!(encode(&Value::Integer(-3)), "-3");
    assert_eq!(encode(&s("plain")), "plain");
    assert_eq!(encode(&s("")), "\"\"");
    assert_eq!(encode(&obj(vec![])), "{}");
    assert_eq!(encode(&Value::Array(vec![])), "[]");
}

#[test]
fn strings_that_need_quotes() {
    let v = obj(vec![
        ("a", s("two words")),
        ("b", s("true")),
        ("c", s("12")),
        ("d", s("-x")),
        ("e", s("q\"\\;\n\t")),
        ("f", s("a,b")),
        ("g", s("@s:x")),
    ]);
    assert_eq!(
        encode(&v),
        "a: \"two words\"\nb: \"true\"\nc: \"12\"\nd: \"-x\"\ne: \"q\\\"\\\\\\;\\n\\t\"\nf: \"a,b\"\ng: \"@s:x\""
    );
}

#[test]
fn keys_that_need_quotes() {
    let v = obj(vec![("a b", Value::Integer(1)), ("", Value::Integer(2)), ("c,d", Value::Null)]);
    assert_eq!(encode(&v), "\"a b\": 1\n\"\": 2\n\"c,d\": null");
}

#[test]
fn arrays_in_their_three_forms() {
    let v = obj(vec![
        ("tags", Value::Array(vec![s("x"), Value::Integer(2), Value::Float(scon::Float::new("0.5").unwrap())])),
        (
            "rows",
            Value::Array(vec![
                obj(vec![("id", Value::Integer(1)), ("n", s("a"))]),
                obj(vec![("n", s("b c")), ("id", Value::Integer(2))]),
            ]),
        ),
        (
            "list",
            Value::Array(vec![
                s("one"),
                obj(vec![]),
                Value::Array(vec![Value::Null, Value::Bool(true)]),
                obj(vec![("k", Value::Integer(1)), ("m", Value::Array(vec![s("z")]))]),
            ]),
        ),
    ]);
    assert_eq!(
        encode(&v),
        "tags[3]: x, 2, 0.5\nrows[2]{id,n}:\n 1, a\n 2, \"b c\"\nlist[4]:\n - one\n - {}\n - [2]: null, true\n - k: 1\n  m[1]: z"
    );
}

#[test]
fn arrays_at_the_root() {
    assert_eq!(encode(&Value::Array(vec![Value::Integer(1), Value::Integer(2)])), "[2]: 1, 2");
    assert_eq!(
        encode(&Value::Array(vec![s("a"), Value::Array(vec![])])),
        "[2]:\n - a\n - []"
    );
}

#[test]
fn nested_objects_are_indented() {
    let v = obj(vec![("a", obj(vec![("b", obj(vec![("c", Value::Integer(1))]))])), ("d", obj(vec![]))]);
    assert_eq!(encode(&v), "a:\n b:\n  c: 1\nd: {}");
    assert_eq!(encode_with_indent(&v, 3), "a:\n   b:\n      c: 1\nd: {}");
    assert_eq!(encode_with_indent(&v, 0), encode(&v));
}

#[test]
fn documents_are_appended() {
    let mut buf = String::from("# note\n");
    encode_to(&obj(vec![("k", Value::Integer(1))]), &mut buf);
    assert_eq!(buf, "# note\nk: 1");
    let mut e = Encoder::new();
    e.encode_to(&Value::Null, &mut buf);
    assert_eq!(buf, "# note\nk: 1null");
}

#[test]
fn another_delimiter_stands_between_values() {
    let v = obj(vec![("t", Value::Array(vec![s("a,b"), s("c|d"), s("e")]))]);
    assert_eq!(Encoder::new().with_delimiter('|').encode(&v), "t[3]: a,b| \"c|d\"| e");
}

#[test]
fn definitions_stand_before_the_value() {
    let mail = obj(vec![("type", s("string")), ("format", s("email"))]);
    let data = obj(vec![("mail", mail.clone()), ("name", s("x"))]);
    let text = Encoder::new()
        .with_schemas(vec![("Mail", mail.clone())])
        .with_responses(vec![("Ok", obj(vec![("status", Value::Integer(200))]))])
        .with_security(vec![("Key", obj(vec![("in", s("header"))]))])
        .encode(&data);
    assert_eq!(
        text,
        "s:Mail {type:string, format:email}\n\nr:Ok {status:200}\n\nsec:Key {in:header}\nmail: @s:Mail\nname: x"
    );
}

#[test]
fn repeated_objects_are_defined_once() {
    let part = obj(vec![("type", s("object")), ("n", Value::Integer(1))]);
    let data = obj(vec![("first", part.clone()), ("second", part.clone()), ("third", s("x"))]);
    assert_eq!(
        encode_with_dedup(&data),
        "s:first {type:object, n:1}\nfirst: @s:first\nsecond: @s:first\nthird: x"
    );
}

#[test]
fn definitions_that_nothing_names_are_left_out() {
    let row = obj(vec![("a", Value::Integer(1)), ("b", Value::Integer(2))]);
    let data = obj(vec![("rows", Value::Array(vec![row.clone(), row.clone()]))]);
    assert_eq!(encode_with_dedup(&data), "rows[2]{a,b}:\n 1, 2\n 1, 2");
}

#[test]
fn an_encoder_remembers_what_it_defined() {
    let part = obj(vec![("x", Value::Integer(1)), ("y", Value::Integer(2))]);
    let mut e = Encoder::new().with_auto_extract(true);
    e.encode(&obj(vec![("p", part.clone()), ("q", part.clone())]));
    assert_eq!(e.encode(&obj(vec![("r", part.clone())])), "s:p {x:1, y:2}\nr: @s:p");
}
