//! What a decoder reads.

use compact_str::CompactString;
use scon::value::SconMap;
use scon::{decode, Decoder, Value};

fn s(v: &str) -> Value {
    Value::String(CompactString::from(v))
}

fn f(t: &str) -> Value {
    Value::Float(scon::Float::new(t).unwrap())
}

fn obj(pairs: Vec<(&str, Value)>) -> Value {
    let mut map = SconMap::new();
    for (k, v) in pairs {
        map.insert(CompactString::from(k), v);
    }
    Value::Object(map)
}

#[test]
fn tokens() {
    let d = decode("a: 1\nb: +2\nc: -3.5e2\nd: 12x\ne: true\nf: null\ng: \"q\\n\\\"\"\nh: [1, x]\ni: {k: v, \"l m\": 2}\nj: .5\nk: 9223372036854775808\nl: -").unwrap();
    let want = obj(vec![
        ("a", Value::Integer(1)),
        ("b", Value::Integer(2)),
        ("c", f("-350.0")),
        ("d", s("12x")),
        ("e", Value::Bool(true)),
        ("f", Value::Null),
        ("g", s("q\n\"")),
        ("h", Value::Array(vec![Value::Integer(1), s("x")])),
        ("i", obj(vec![("k", s("v")), ("l m", Value::Integer(2))])),
        ("j", f("0.5")),
        ("k", f("9223372036854775808")),
        ("l", s("-")),
    ]);
    assert_eq!(d, want);
}

#[test]
fn roots() {
    assert_eq!(decode("").unwrap(), obj(vec![]));
    assert_eq!(decode("# only a comment").unwrap(), obj(vec![]));
    assert_eq!(decode("{}").unwrap(), obj(vec![]));
    assert_eq!(decode("42").unwrap(), Value::Integer(42));
    assert_eq!(decode("[]").unwrap(), Value::Array(vec![]));
    assert_eq!(decode("[2]: a, b").unwrap(), Value::Array(vec![s("a"), s("b")]));
    assert_eq!(decode("no colon\nhere").unwrap(), obj(vec![]));
}

#[test]
fn tables_lists_and_delimiters() {
    let d = decode("t[2]{a,b}:\n  1, x\n  2\nu[2|]: p | q\nl:\n  - 1\n  - k: v\n    m: w\ne[1]:\n  - [2]: 3, 4").unwrap();
    let want = obj(vec![
        (
            "t",
            Value::Array(vec![
                obj(vec![("a", Value::Integer(1)), ("b", s("x"))]),
                obj(vec![("a", Value::Integer(2)), ("b", Value::Null)]),
            ]),
        ),
        ("u", Value::Array(vec![s("p"), s("q")])),
        (
            "l",
            Value::Array(vec![
                Value::Integer(1),
                obj(vec![("k", s("v")), ("m", s("w"))]),
            ]),
        ),
        ("e", Value::Array(vec![Value::Array(vec![Value::Integer(3), Value::Integer(4)])])),
    ]);
    assert_eq!(d, want);
}

#[test]
fn a_table_takes_no_more_rows_than_announced() {
    let d = decode("t[1]{a}:\n 1\n 2\nk: v").unwrap();
    assert_eq!(
        d,
        obj(vec![("t", Value::Array(vec![obj(vec![("a", Value::Integer(1))])])), ("k", s("v"))])
    );
}

#[test]
fn a_quoted_key_must_be_closed() {
    assert_eq!(decode("a: 1\nl:\n - \"x: 1"), Err("Unterminated quoted key".to_string()));
}

#[test]
fn a_quoted_key_must_have_a_colon() {
    assert_eq!(decode("\"k\" : 1"), Err("Missing colon after key".to_string()));
    assert_eq!(decode("l:\n - \"x\" y: 1"), Err("Missing colon after key".to_string()));
}

#[test]
fn later_entries_replace_earlier_ones() {
    assert_eq!(
        decode("a: 1\nb: 2\na: 3").unwrap(),
        obj(vec![("a", Value::Integer(3)), ("b", Value::Integer(2))])
    );
}

#[test]
fn minified_documents() {
    let d = decode("a:;b: 1;c:;d: 2;;;e: \"x;y\"").unwrap();
    let want = obj(vec![
        ("a", obj(vec![("b", Value::Integer(1)), ("c", obj(vec![("d", Value::Integer(2))]))])),
        ("e", s("x;y")),
    ]);
    assert_eq!(d, want);
}

#[test]
fn a_fixed_indentation() {
    let text = "a:\n  b: 1";
    assert_eq!(
        Decoder::new().decode(text).unwrap(),
        obj(vec![("a", obj(vec![("b", Value::Integer(1))]))])
    );
    assert_eq!(
        Decoder::new().with_indent(2).decode(text).unwrap(),
        obj(vec![("a", obj(vec![("b", Value::Integer(1))]))])
    );
    assert_eq!(
        Decoder::new().with_indent(1).decode(text).unwrap(),
        obj(vec![("a", obj(vec![]))])
    );
}

#[test]
fn definitions_stay_known() {
    let mut d = Decoder::new();
    d.decode("s:P {x: 1}").unwrap();
    assert_eq!(d.decode("k: @s:P").unwrap(), obj(vec![("k", obj(vec![("x", Value::Integer(1))]))]));
    d.parse_schema_def("r:Q {y: 2}", "r");
    assert_eq!(d.resolve_reference("@r:Q"), obj(vec![("y", Value::Integer(2))]));
    assert_eq!(d.resolve_reference("@s:Nope"), s("@s:Nope"));
}

#[test]
fn a_choice_of_references() {
    let v = decode("s:A {x: 1}\ns:B {y: 2}\nk: @s:A | @s:B").unwrap();
    let all = Value::Array(vec![obj(vec![("x", Value::Integer(1))]), obj(vec![("y", Value::Integer(2))])]);
    assert_eq!(v, obj(vec![("k", obj(vec![("oneOf", all)]))]));
}

#[test]
fn positions_are_counted_in_bytes() {
    let d = Decoder::new();
    assert_eq!(d.find_key_colon("key: v"), Some(3));
    assert_eq!(d.find_key_colon("\"a:b\": v"), Some(5));
    assert_eq!(d.find_key_colon("{a: 1}"), None);
    assert_eq!(d.find_key_colon("é: v"), Some(2));
    assert_eq!(d.find_closing_quote("\"a\\\"b\" x", 0), Some(5));
    assert_eq!(d.find_closing_quote("\"é\"", 0), Some(3));
    assert_eq!(d.find_closing_quote("\"abc", 0), None);
    assert_eq!(d.find_matching_bracket("[a, [b]] c", 0), Some(7));
    assert_eq!(d.find_matching_bracket("[a", 0), None);
}

#[test]
fn parts_of_a_line() {
    let d = Decoder::new();
    assert_eq!(d.extract_brace_content("x {a: {b}} y"), Some("a: {b}"));
    assert_eq!(d.extract_brace_content("{a"), None);
    assert_eq!(d.split_top_level("a, \"b,c\", {d,e}, [f,g]", ','), vec!["a", " \"b,c\"", " {d,e}", " [f,g]"]);
    assert_eq!(d.split_top_level("", ','), Vec::<&str>::new());
    assert_eq!(d.split_top_level("a|b", '|'), vec!["a", "b"]);
}
