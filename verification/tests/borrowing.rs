//! Values that borrow from the document.

use bumpalo::Bump;
use scon::{decode, BorrowedDecoder, BorrowedValue};

#[test]
fn borrowed_entries() {
    let arena = Bump::new();
    let v = BorrowedDecoder::new(&arena)
        .decode("name: scon\nn: 3\nd: 0.5\nt[2]{a,b}:\n 1, x\n 2, y\nesc: \"a\\tb\"\nnone: null\nyes: true")
        .unwrap();
    if let BorrowedValue::Object(o) = &v {
        assert_eq!(o.len(), 7);
        assert_eq!(o.key_at(0), "name");
        assert_eq!(o.get("name"), Some(&BorrowedValue::String("scon")));
        assert_eq!(o.get("n"), Some(&BorrowedValue::Integer(3)));
        assert_eq!(o.get("d"), Some(&BorrowedValue::Float(scon::Float::new("0.50").unwrap())));
        assert_eq!(o.get("esc"), Some(&BorrowedValue::String("a\tb")));
        assert_eq!(o.get("none"), Some(&BorrowedValue::Null));
        assert_eq!(o.value_at(6), &BorrowedValue::Bool(true));
        assert!(o.contains_key("t"));
        assert!(!o.contains_key("u"));
        if let Some(BorrowedValue::Array(rows)) = o.get("t") {
            assert_eq!(rows.len(), 2);
            if let BorrowedValue::Object(row) = &rows[1] {
                assert_eq!(row.get("b"), Some(&BorrowedValue::String("y")));
            } else {
                panic!("a row is an object");
            }
        } else {
            panic!("a table is an array");
        }
    } else {
        panic!("the root is an object");
    }
}

#[test]
fn borrowed_primitives() {
    assert!(BorrowedValue::Null.is_primitive());
    assert!(BorrowedValue::String("x").is_primitive());
    assert!(!BorrowedValue::Array(vec![]).is_primitive());
}

#[test]
fn borrowed_references() {
    let arena = Bump::new();
    let v = BorrowedDecoder::new(&arena).decode("s:P {x: \"one two\"}\nk: @s:P\nm: @s:Q").unwrap();
    if let BorrowedValue::Object(o) = &v {
        if let Some(BorrowedValue::Object(p)) = o.get("k") {
            assert_eq!(p.get("x"), Some(&BorrowedValue::String("one two")));
        } else {
            panic!("the reference leads to an object");
        }
        assert_eq!(o.get("m"), Some(&BorrowedValue::String("@s:Q")));
    } else {
        panic!("the root is an object");
    }
}

#[test]
fn borrowed_minified() {
    let arena = Bump::new();
    let v = BorrowedDecoder::new(&arena).decode("a:;b: 1;;c: \"x;y\"").unwrap();
    if let BorrowedValue::Object(o) = &v {
        assert_eq!(o.get("c"), Some(&BorrowedValue::String("x;y")));
        assert_eq!(o.clone().len(), 2);
        assert_eq!(v.clone(), v);
    } else {
        panic!("the root is an object");
    }
}

#[test]
fn borrowed_errors() {
    let arena = Bump::new();
    assert_eq!(
        BorrowedDecoder::new(&arena).decode("\"k\" : 1").err(),
        decode("\"k\" : 1").err()
    );
}
