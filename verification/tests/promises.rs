//! What holds of several operations together, on chosen values.

use bumpalo::Bump;
use compact_str::CompactString;
use scon::value::SconMap;
use scon::{
    decode, encode, encode_with_dedup, encode_with_indent, expand, minify, BorrowedDecoder,
    BorrowedValue, DefType, DiffEntry, DiffKind, Encoder, Node, SchemaRegistry, TapeDecoder,
    TreeHash, Value,
};

fn s(v: &str) -> Value {
    Value::String(CompactString::from(v))
}

fn obj(pairs: Vec<(&str, Value)>) -> Value {
    let mut map = SconMap::new();
    for (k, v) in pairs {
        map.insert(CompactString::from(k), v);
    }
    Value::Object(map)
}

fn sample() -> Value {
    obj(vec![
        ("name", s("two words")),
        ("n", Value::Integer(-4)),
        ("d", Value::Float(scon::Float::new("2.50").unwrap())),
        ("odd key", Value::Bool(true)),
        ("esc", s("a\"b;c\n\t\\")),
        ("deep", obj(vec![("er", obj(vec![("est", Value::Null), ("e", obj(vec![]))]))])),
        ("tags", Value::Array(vec![s("x"), s("1"), Value::Null])),
        (
            "rows",
            Value::Array(vec![
                obj(vec![("id", Value::Integer(1)), ("t", s("u"))]),
                obj(vec![("t", s("v, w")), ("id", Value::Integer(2))]),
            ]),
        ),
        (
            "list",
            Value::Array(vec![
                s("one"),
                obj(vec![("k", s("v")), ("in", obj(vec![("x", Value::Integer(1))]))]),
                Value::Array(vec![Value::Integer(1), Value::Integer(2)]),
                obj(vec![]),
            ]),
        ),
    ])
}

fn owned(v: &BorrowedValue) -> Value {
    match v {
        BorrowedValue::Null => Value::Null,
        BorrowedValue::Bool(b) => Value::Bool(*b),
        BorrowedValue::Integer(n) => Value::Integer(*n),
        BorrowedValue::Float(t) => Value::Float(t.clone()),
        BorrowedValue::String(t) => s(t),
        BorrowedValue::Array(a) => Value::Array(a.iter().map(owned).collect()),
        BorrowedValue::Object(o) => {
            let mut m = SconMap::new();
            for i in 0..o.len() {
                m.insert(CompactString::from(o.key_at(i)), owned(o.value_at(i)));
            }
            Value::Object(m)
        }
    }
}

#[test]
fn reading_undoes_writing() {
    let v = sample();
    assert_eq!(decode(&encode(&v)), Ok(v.clone()));
    assert_eq!(decode(&encode_with_indent(&v, 4)), Ok(v));
}

#[test]
fn minifying_and_expanding() {
    let v = sample();
    let text = encode_with_indent(&v, 2);
    let mini = minify(&text);
    assert!(!mini.contains('\n'));
    assert_eq!(decode(&mini), Ok(v));
    assert_eq!(expand(&mini, 2), text);
    assert_eq!(decode(&expand(&mini, 5)), decode(&text));
}

#[test]
fn borrowed_values_are_the_same() {
    let text = encode(&sample());
    let arena = Bump::new();
    let b = BorrowedDecoder::new(&arena).decode(&text).unwrap();
    assert_eq!(Ok(owned(&b)), decode(&text));
}

#[test]
fn extracted_parts_are_put_back() {
    let part = obj(vec![("type", s("object")), ("size", Value::Integer(3)), ("tags", Value::Array(vec![s("a")]))]);
    let v = obj(vec![
        ("first", part.clone()),
        ("in", obj(vec![("second", part.clone()), ("x", Value::Integer(1))])),
    ]);
    let text = encode_with_dedup(&v);
    assert!(text.contains("@s:"));
    assert_eq!(decode(&text), Ok(v));
}

#[test]
fn extracted_parts_are_put_back_from_one_line() {
    let part = obj(vec![("a", s("x y")), ("b", obj(vec![("c", Value::Null), ("d", s("\"q\""))]))]);
    let v = obj(vec![("one", part.clone()), ("two", part.clone()), ("n", Value::Integer(1))]);
    let text = encode_with_dedup(&v);
    assert_eq!(text.matches("s:").count(), 3);
    assert_eq!(decode(&minify(&text)), Ok(v));
}

#[test]
fn given_definitions_are_put_back() {
    let part = obj(vec![("x", Value::Integer(1)), ("tags", Value::Array(vec![s("a"), s("b c")]))]);
    let v = obj(vec![("p", part.clone()), ("q", s("z"))]);
    let text = Encoder::new().with_indent(2).with_schemas(vec![("Part", part)]).encode(&v);
    assert_eq!(text, "s:Part {x:1, tags:[a, \"b c\"]}\np: @s:Part\nq: z");
    assert_eq!(decode(&text), Ok(v));
}

#[test]
fn definitions_of_all_kinds_are_put_back() {
    let part = obj(vec![("x", Value::Integer(1)), ("y", Value::Null)]);
    let v = obj(vec![("p", part.clone()), ("q", obj(vec![("inner", part.clone())]))]);
    let unused = obj(vec![("z", s("never"))]);
    let text = Encoder::new()
        .with_auto_extract(true)
        .with_schemas(vec![("Unused", unused)])
        .with_responses(vec![("Ok", obj(vec![("status", Value::Integer(200))]))])
        .with_security(vec![("Key", obj(vec![("in", s("header"))]))])
        .encode(&v);
    assert!(!text.contains("Unused"));
    assert!(text.contains("\n\nr:Ok {status:200}\n\nsec:Key {in:header}\n"));
    assert_eq!(decode(&text), Ok(v.clone()));
    assert_eq!(decode(&minify(&text)), Ok(v));
}

#[test]
fn nothing_stands_before_the_first_definition_that_stays() {
    let v = obj(vec![("p", Value::Integer(1))]);
    let text = Encoder::new()
        .with_auto_extract(true)
        .with_schemas(vec![("Unused", obj(vec![("z", Value::Null)]))])
        .with_security(vec![("Key", obj(vec![("in", s("header"))]))])
        .encode(&v);
    assert_eq!(text, "sec:Key {in:header}\np: 1");
    assert_eq!(decode(&text), Ok(v));
}

/// Values in lists, at every place in a list item.
fn nested() -> Vec<Value> {
    let one = Value::Integer(1);
    let inner = obj(vec![("b", one.clone())]);
    let row = |n: i64| obj(vec![("x", Value::Integer(n)), ("y", s("z"))]);
    vec![
        obj(vec![(
            "l",
            Value::Array(vec![obj(vec![("a", inner.clone()), ("c", Value::Integer(2))])]),
        )]),
        obj(vec![("l", Value::Array(vec![Value::Array(vec![inner.clone(), one.clone()])]))]),
        obj(vec![("l", Value::Array(vec![Value::Array(vec![row(1), row(2)]), Value::Null]))]),
        Value::Array(vec![
            obj(vec![
                ("k", Value::Array(vec![Value::Array(vec![one.clone()]), inner.clone()])),
                ("t", Value::Array(vec![row(3), row(4)])),
            ]),
            obj(vec![("t", Value::Array(vec![row(5), row(6)])), ("n", Value::Null)]),
            Value::Array(vec![Value::Array(vec![Value::Array(vec![inner.clone()])])]),
            Value::Array(vec![]),
        ]),
    ]
}

#[test]
fn nested_lists_come_back() {
    for v in nested() {
        for n in 1..4 {
            let text = encode_with_indent(&v, n);
            assert_eq!(decode(&text), Ok(v.clone()), "{text}");
            assert_eq!(decode(&minify(&text)), Ok(v.clone()), "{text}");
            assert_eq!(expand(&minify(&text), n), text);
            let arena = Bump::new();
            let b = BorrowedDecoder::new(&arena).decode(&text).unwrap();
            assert_eq!(owned(&b), v);
        }
    }
}

#[test]
fn items_of_an_expanded_array_begin_with_a_dash() {
    let inner = obj(vec![("b", Value::Integer(1))]);
    let v = obj(vec![("l", Value::Array(vec![Value::Array(vec![inner.clone(), Value::Null])]))]);
    assert_eq!(encode_with_indent(&v, 2), "l[1]:\n  - [2]:\n      - b: 1\n      - null");
    let w = obj(vec![("l", Value::Array(vec![obj(vec![("a", inner), ("c", Value::Integer(2))])]))]);
    assert_eq!(encode_with_indent(&w, 2), "l[1]:\n  - a:\n      b: 1\n    c: 2");
}

#[test]
fn references_in_lists_are_put_back() {
    let part = obj(vec![("a", obj(vec![])), ("b", Value::Integer(1))]);
    let v = obj(vec![("l", Value::Array(vec![part.clone(), part]))]);
    let text = encode_with_dedup(&v);
    assert!(text.contains("- @s:"));
    assert_eq!(decode(&text), Ok(v.clone()));
    assert_eq!(decode(&minify(&text)), Ok(v.clone()));
    let arena = Bump::new();
    assert_eq!(owned(&BorrowedDecoder::new(&arena).decode(&text).unwrap()), v);
    assert_eq!(decode("s:P {x: 1}\nk:\n  - @s:P\n  - 2"), decode("k:\n  - x: 1\n  - 2"));
}

fn nodes_of<'a>(v: &'a Value, out: &mut Vec<Node<'a>>) {
    match v {
        Value::Null => out.push(Node::Null),
        Value::Bool(b) => out.push(Node::Bool(*b)),
        Value::Integer(n) => out.push(Node::Integer(*n)),
        Value::Float(t) => out.push(Node::Float(t.clone())),
        Value::String(t) => out.push(Node::String(t.as_str().into())),
        Value::Array(a) => {
            out.push(Node::Array(a.len()));
            for x in a {
                nodes_of(x, out);
            }
        }
        Value::Object(o) => {
            out.push(Node::Object(o.len()));
            for i in 0..o.len() {
                out.push(Node::Key(o.key_at(i).into()));
                nodes_of(o.value_at(i), out);
            }
        }
    }
}

#[test]
fn a_tape_holds_the_same() {
    let v = obj(vec![
        ("a b", s("two words")),
        ("l", Value::Array(vec![s("x"), obj(vec![("k", Value::Integer(1)), ("m", Value::Float(scon::Float::new("0.50").unwrap()))])])),
        ("t", Value::Array(vec![obj(vec![("i", Value::Null)]), obj(vec![("i", Value::Bool(true))])])),
        ("e", obj(vec![("f", obj(vec![]))])),
    ]);
    let text = encode(&v);
    let mut want = Vec::new();
    nodes_of(&v, &mut want);
    assert_eq!(TapeDecoder::new().decode(&text).unwrap().nodes, want);
}

#[test]
fn fields_that_no_override_names_stay() {
    let mut reg = SchemaRegistry::new();
    reg.register(DefType::Schema, "B", obj(vec![("a", Value::Integer(1)), ("b", Value::Integer(2))]));
    let r = reg
        .resolve_with_override(DefType::Schema, "B", &obj(vec![("c.d", Value::Null), ("-e", Value::Null)]))
        .unwrap();
    let o = r.as_object().unwrap();
    assert_eq!(o.get("a"), Some(&Value::Integer(1)));
    assert_eq!(o.get("b"), Some(&Value::Integer(2)));
    assert_eq!(o.get("c"), Some(&obj(vec![("d", Value::Null)])));
}

#[test]
fn equality_goes_both_ways_on_values() {
    let a = obj(vec![("x", Value::Float(scon::Float::new("1.50").unwrap())), ("y", Value::Array(vec![Value::Null]))]);
    let b = obj(vec![("y", Value::Array(vec![Value::Null])), ("x", Value::Float(scon::Float::new("1.5").unwrap()))]);
    assert!(a == b && b == a);
}

fn around(first: Value, second: Value) -> Value {
    obj(vec![
        ("list", Value::Array(vec![first, Value::Float(scon::Float::new("2.5").unwrap())])),
        ("in", obj(vec![("it", second), ("n", Value::Integer(1))])),
    ])
}

#[test]
fn hashes_do_not_tell_the_order_at_any_depth() {
    let ab = || obj(vec![("a", Value::Integer(1)), ("b", s("x"))]);
    let ba = || obj(vec![("b", s("x")), ("a", Value::Integer(1))]);
    let v = around(ab(), ab());
    let w = around(ba(), ba());
    assert_eq!(TreeHash::hash(&v), TreeHash::hash(&w));
    assert_ne!(TreeHash::hash(&v), TreeHash::hash(&around(ab(), Value::Null)));
    let x = TreeHash::hash_tree(&v, "", 2, true);
    let y = TreeHash::hash_tree(&w, "", 2, true);
    assert_eq!(x.root_hash, y.root_hash);
    assert_eq!(x.index.len(), y.index.len());
    for e in x.index.values() {
        assert!(y.index.values().iter().any(|f| f.path == e.path && f.count == e.count));
    }
}

#[test]
fn equal_numbers_have_one_hash() {
    let v = obj(vec![("d", Value::Float(scon::Float::new("2.50").unwrap()))]);
    let w = obj(vec![("d", Value::Float(scon::Float::new("25e-1").unwrap()))]);
    assert_eq!(v, w);
    assert_eq!(TreeHash::hash(&v), TreeHash::hash(&w));
}

#[test]
fn what_differs_in_nothing_is_the_same() {
    let ab = obj(vec![("a", Value::Integer(1)), ("b", obj(vec![("c", Value::Null)]))]);
    let ba = obj(vec![("b", obj(vec![("c", Value::Null)])), ("a", Value::Integer(1))]);
    let other = obj(vec![("a", Value::Integer(1)), ("b", obj(vec![("c", Value::Bool(true))]))]);
    assert!(TreeHash::equals(&ab, &ba));
    assert!(TreeHash::diff(&ab, &ba, "").is_empty());
    assert!(!TreeHash::equals(&ab, &other));
    let d = TreeHash::diff(&ab, &other, "");
    assert_eq!(
        d,
        vec![DiffEntry {
            path: "b.c".to_string(),
            kind: DiffKind::Changed { old: Value::Null, new: Value::Bool(true) },
        }]
    );
}

fn mirrored(d: &DiffEntry) -> DiffEntry {
    let kind = match &d.kind {
        DiffKind::Added(v) => DiffKind::Removed(v.clone()),
        DiffKind::Removed(v) => DiffKind::Added(v.clone()),
        DiffKind::Changed { old, new } => DiffKind::Changed { old: new.clone(), new: old.clone() },
    };
    DiffEntry { path: d.path.clone(), kind }
}

#[test]
fn differences_are_those_of_the_other_side_exchanged() {
    let v = obj(vec![
        ("gone", Value::Integer(1)),
        ("both", obj(vec![("x", Value::Integer(1)), ("y", s("z"))])),
    ]);
    let w = obj(vec![
        ("both", obj(vec![("y", s("zz")), ("x", Value::Integer(1)), ("new", Value::Null)])),
        ("more", Value::Bool(false)),
    ]);
    let there = TreeHash::diff(&v, &w, "");
    let back = TreeHash::diff(&w, &v, "");
    assert_eq!(there.len(), 4);
    assert_eq!(back.len(), 4);
    for d in &there {
        assert!(back.contains(&mirrored(d)));
    }
}

#[test]
fn blank_lines_and_comments_do_not_show_on_one_line() {
    let bare = "#!scon/1.0\na:\n  b: 1\n  c: 2\nd: 3\n";
    let full = "#!scon/1.0\n\n# first\na:\n   # deeper\n  b: 1\n\n  c: 2\n#last\nd: 3";
    assert_eq!(minify(bare), minify(full));
    assert_eq!(minify(bare), "#!scon/1.0;a:;b: 1;c: 2;;d: 3");
}

#[test]
fn nothing_is_defined_where_nothing_repeats() {
    let v = around(
        obj(vec![("a", Value::Integer(1)), ("b", s("x"))]),
        obj(vec![("a", Value::Integer(2)), ("b", s("x"))]),
    );
    assert_eq!(encode_with_dedup(&v), encode(&v));
    assert_eq!(encode_with_dedup(&sample()), encode(&sample()));
}

#[test]
fn ordinary_objects_come_back_with_definitions() {
    let part = || {
        obj(vec![
            ("street", s("Main: 1")),
            ("tags", Value::Array(vec![s("x"), Value::Integer(1)])),
            ("geo", obj(vec![("lat", Value::Float(scon::Float::new("1.5").unwrap())), ("lon", Value::Null)])),
        ])
    };
    let v = obj(vec![("home", part()), ("work", part()), ("x.y", obj(vec![("z", part())]))]);
    let text = encode_with_dedup(&v);
    assert!(text.contains("@s:"));
    assert_eq!(decode(&text), Ok(v.clone()));
    assert_eq!(decode(&minify(&text)), Ok(v));
}

/// Where the value that begins at `at` ends.
fn end_of(nodes: &[Node], at: usize) -> usize {
    match &nodes[at] {
        Node::Array(n) => (0..*n).fold(at + 1, |k, _| end_of(nodes, k)),
        Node::Object(n) => (0..*n).fold(at + 1, |k, _| {
            assert!(matches!(nodes[k], Node::Key(_)));
            end_of(nodes, k + 1)
        }),
        Node::Key(_) => panic!("a key where a value should be"),
        _ => at + 1,
    }
}

#[test]
fn every_tape_holds_one_value() {
    for input in [
        "",
        "{}",
        "word",
        "two\nwords",
        "a: 1\n   b: 2\nc",
        "a[3]: 1, 2",
        "a[5]:\n - 1\n - k: v\n   l: w\n - [2]: 1, 2\nz: 0",
        "t[3]{a,b}:\n 1, 2\n 3\nz: 0",
        "l:\n - x\n - y: {a: 1, b}\n   q\n  - deep\nz: [1, {}, x]",
        "[2]: 1, 2",
        "s:n {a:1, b:{c:2}}\nx: @s:n\ny: @s:none",
        "a: 1;b:;c: 2;;d[2]: 1, 2",
        &encode(&sample()),
    ] {
        let tape = TapeDecoder::new().decode(input).unwrap();
        assert_eq!(end_of(&tape.nodes, 0), tape.nodes.len());
    }
}

/// The value that begins at `at`, and where it ends.
fn rebuilt(nodes: &[Node], at: usize) -> (Value, usize) {
    match &nodes[at] {
        Node::Null => (Value::Null, at + 1),
        Node::Bool(b) => (Value::Bool(*b), at + 1),
        Node::Integer(n) => (Value::Integer(*n), at + 1),
        Node::Float(t) => (Value::Float(t.clone()), at + 1),
        Node::String(t) => (s(t), at + 1),
        Node::Array(n) => {
            let mut items = vec![];
            let mut k = at + 1;
            for _ in 0..*n {
                let (v, next) = rebuilt(nodes, k);
                items.push(v);
                k = next;
            }
            (Value::Array(items), k)
        }
        Node::Object(n) => {
            let mut pairs = vec![];
            let mut k = at + 1;
            for _ in 0..*n {
                let key = match &nodes[k] {
                    Node::Key(t) => t.to_string(),
                    _ => panic!("no key where one should be"),
                };
                let (v, next) = rebuilt(nodes, k + 1);
                pairs.push((key, v));
                k = next;
            }
            (obj(pairs.iter().map(|(k, v)| (k.as_str(), v.clone())).collect()), k)
        }
        Node::Key(_) => panic!("a key where a value should be"),
    }
}

#[test]
fn a_tape_tells_the_value() {
    for input in [
        "a: 1\nb:\n c: x\n d[2]: 1.5, null\n",
        "rows[2]{id,t}:\n 1, u\n 2, v\nlist[2]:\n - one\n - k: v\n   in:\n    x: true",
        "a: 1;b:;c: x;;d[2]: y, z",
    ] {
        let tape = TapeDecoder::new().decode(input).unwrap();
        let (v, end) = rebuilt(&tape.nodes, 0);
        assert_eq!(end, tape.nodes.len());
        assert_eq!(Ok(v), decode(input));
    }
}

#[test]
fn printable_strings_come_back() {
    for code in 0x20u8..=0x7e {
        let c = code as char;
        for text in [format!("{}", c), format!("{}{}", c, c), format!("a{}b", c)] {
            let part = obj(vec![
                ("k", s(&text)),
                ("n", Value::Null),
                ("l", Value::Array(vec![s(&text), s("x")])),
            ]);
            let v = obj(vec![("one", part.clone()), ("two", part)]);
            assert_eq!(decode(&encode(&v)), Ok(v.clone()));
            assert_eq!(decode(&encode_with_dedup(&v)), Ok(v));
        }
    }
}

#[test]
fn neat_values_come_back() {
    let v = Value::Array(vec![
        obj(vec![
            ("ключ", s("значение с пробелом ")),
            ("\tkey:", Value::Array(vec![s(" a"), s("b\t"), s("日本: 語")])),
            ("", obj(vec![("@s:x", s("@s:x")), ("#", s("# no comment"))])),
        ]),
        Value::Array(vec![Value::Array(vec![]), Value::Array(vec![s("true"), Value::Bool(true)])]),
        obj(vec![(
            "t{}",
            Value::Array(vec![
                obj(vec![("a b", s("1")), ("s", Value::Integer(1))]),
                obj(vec![("s", Value::Null), ("a b", s("-"))]),
            ]),
        )]),
        Value::Float(scon::Float::new("-1e-7").unwrap()),
        s(""),
    ]);
    for indent in [1, 2, 8] {
        let text = encode_with_indent(&v, indent);
        assert_eq!(decode(&text), Ok(v.clone()));
        assert_eq!(decode(&minify(&text)), Ok(v.clone()));
        assert_eq!(decode(&expand(&minify(&text), indent)), Ok(v.clone()));
    }
}
