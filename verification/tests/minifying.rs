//! Documents on one line, and back.

use scon::{decode, expand, minify, Minifier};

#[test]
fn levels_end_in_semicolons() {
    let text = "server:\n  host: localhost\n  port: 8080\ndb:\n  name: main\n  pool:\n    max: 5\nlast: 1";
    let mini = "server:;host: localhost;port: 8080;;db:;name: main;pool:;max: 5;;;last: 1";
    assert_eq!(minify(text), mini);
    assert_eq!(expand(mini, 2), text);
    assert_eq!(decode(mini), decode(text));
}

#[test]
fn comments_and_blank_lines_go() {
    assert_eq!(minify("#!scon/1\n# note\n\na: 1\n  # more\nb: 2"), "#!scon/1;a: 1;b: 2");
}

#[test]
fn list_items_open_a_level() {
    let text = "l:\n - k: v\n  m: w\n - x";
    assert_eq!(minify(text), "l:;- k: v;m: w;;- x");
    assert_eq!(expand("l:;- k: v;m: w;;- x", 1), text);
}

#[test]
fn semicolons_in_quotes_stay() {
    assert_eq!(expand("a: \"x;y\\\"\";b: 1", 4), "a: \"x;y\\\"\"\nb: 1");
}

#[test]
fn wide_indentation() {
    assert_eq!(Minifier::expand("a:;b:;c: 1", 40), format!("a:\n{}b:\n{}c: 1", " ".repeat(40), " ".repeat(80)));
}

#[test]
fn nothing_stays_nothing() {
    assert_eq!(minify(""), "");
    assert_eq!(expand("", 2), "");
    assert_eq!(expand(";;", 2), "");
}
