//! The nodes of a tape.

use std::borrow::Cow;

use scon::{Node, TapeDecoder};

fn text(t: &str) -> Node<'_> {
    Node::String(Cow::Borrowed(t))
}

fn key(t: &str) -> Node<'_> {
    Node::Key(Cow::Borrowed(t))
}

#[test]
fn nodes_of_an_object() {
    let tape = TapeDecoder::new()
        .decode("a: 1\nb:\n  c: x\n  d: null\ne[2]: true, 2.5\nf: {g: [1], h: y}")
        .unwrap();
    let f: Node = Node::Float(scon::Float::new("2.5").unwrap());
    assert_eq!(
        tape.nodes,
        vec![
            Node::Object(4),
            key("a"),
            Node::Integer(1),
            key("b"),
            Node::Object(2),
            key("c"),
            text("x"),
            key("d"),
            Node::Null,
            key("e"),
            Node::Array(2),
            Node::Bool(true),
            f,
            key("f"),
            Node::Object(2),
            key("g"),
            Node::Array(1),
            Node::Integer(1),
            key("h"),
            text("y"),
        ]
    );
    assert_eq!(tape.len(), 20);
    assert!(!tape.is_empty());
}

#[test]
fn nodes_of_tables_and_lists() {
    let tape = TapeDecoder::new().decode("t[2]{a,b}:\n 1, \"x, y\"\n 2\nl:\n - k: v\n  m: w\n - 3").unwrap();
    assert_eq!(
        tape.nodes,
        vec![
            Node::Object(2),
            key("t"),
            Node::Array(2),
            Node::Object(2),
            key("a"),
            Node::Integer(1),
            key("b"),
            text("x, y"),
            Node::Object(2),
            key("a"),
            Node::Integer(2),
            key("b"),
            Node::Null,
            key("l"),
            Node::Array(2),
            Node::Object(2),
            key("k"),
            text("v"),
            key("m"),
            text("w"),
            Node::Integer(3),
        ]
    );
}

#[test]
fn roots_of_a_tape() {
    let one = |t: &'static str| TapeDecoder::new().decode(t).unwrap().nodes;
    assert_eq!(one(""), vec![Node::Object(0)]);
    assert_eq!(one("{}"), vec![Node::Object(0)]);
    assert_eq!(one("word"), vec![text("word")]);
    assert_eq!(one("[2]: a, 1"), vec![Node::Array(2), text("a"), Node::Integer(1)]);
}

#[test]
fn escapes_stay_as_they_are() {
    let tape = TapeDecoder::new().decode("k: \"a\\nb\"\nj: 1").unwrap();
    assert_eq!(
        tape.nodes,
        vec![Node::Object(2), key("k"), text("a\\nb"), key("j"), Node::Integer(1)]
    );
}

#[test]
fn references_are_resolved_on_a_tape() {
    let tape = TapeDecoder::new().decode("k: @s:P\ns:P {x: 1, y: z}").unwrap();
    assert_eq!(
        tape.nodes,
        vec![
            Node::Object(1),
            key("k"),
            Node::Object(2),
            key("x"),
            Node::Integer(1),
            key("y"),
            text("z"),
        ]
    );
}

#[test]
fn a_minified_document_keeps_its_texts() {
    let tape = TapeDecoder::new().decode("name: Alice;age: 30").unwrap();
    assert_eq!(
        tape.nodes,
        vec![Node::Object(2), key("name"), text("Alice"), key("age"), Node::Integer(30)]
    );
}

#[test]
fn errors_of_a_tape() {
    let r = TapeDecoder::new().decode("l:\n - \"x: 1\n - 2");
    assert_eq!(r.err(), Some("Unterminated quoted key".to_string()));
}
