//! Floats: the text of the machine float that is nearest to a decimal text.

use scon::value::SconMap;
use scon::{decode, encode, BorrowedDecoder, BorrowedValue, Float, Node, TapeDecoder, Value};

/// The shortest text of the machine float nearest to a text.
fn machine(t: &str) -> String {
    ryu::Buffer::new().format(t.parse::<f64>().unwrap()).to_string()
}

fn float(t: &str) -> String {
    Float::new(t).unwrap().as_str().to_string()
}

fn value_of(text: &str) -> Value {
    match decode(text).unwrap() {
        Value::Object(o) => o.get("x").unwrap().clone(),
        _ => panic!("no object"),
    }
}

#[test]
fn texts_are_those_of_machine_floats() {
    let texts = [
        "1.50", "1.5", "0.1", "+2.", ".5", "-.5e1", "2", "100", "1e3", "1E3", "1e+3", "0.000", "-0",
        "-0.0", "123456789.125", "0.1000000000000000055511151231257827", "1e15", "1e16", "1e17",
        "12345678901234567890", "1e21", "1.7976931348623157e308", "1.7976931348623159e308", "1e308",
        "1e309", "-1e309", "1e400", "-1e400", "1e401", "1e99999", "-1e99999", "1e-99999", "5e-324",
        "2e-324", "3e-324", "1e-323", "2.2250738585072014e-308", "2.2250738585072011e-308", "1e-400",
        "-1e-400", "1e-401", "0e99999", "0.0001", "0.00001", "0.00012345", "0.000012345", "1e0005",
        "1e-0005", "123e-5", "0.5e1", "9007199254740993", "9007199254740992.5", "9007199254740993.0",
        "18446744073709551615", "179769313486231580793728971405303415079934132710037826936173778980444968292764750946649017977587207096330286416692887910946555547851940402630657488671505820681908902000708383676273854845817711531764475730270069855571366959622842914819860834936475292719074168444365510704342711559699508093042880",
        "1e999999999999999999999999999999999999999999", "1e-999999999999999999999999999999999999999999",
        "0.000000000000000000000000000000000000000000000000000000000001e60",
    ];
    for t in texts {
        assert_eq!(float(t), machine(t));
    }
}

#[test]
fn texts_of_many_floats_name_them() {
    let mut bits: u64 = 0x9e37_79b9_7f4a_7c15;
    let mut seen = 0;
    while seen < 3000 {
        bits = bits.wrapping_mul(6364136223846793005).wrapping_add(1442695040888963407);
        let n = f64::from_bits(bits);
        if !n.is_finite() {
            continue;
        }
        seen += 1;
        let short = ryu::Buffer::new().format(n).to_string();
        assert_eq!(float(&short), short);
        assert_eq!(float(&format!("{:e}", n)), short);
        assert_eq!(float(&format!("{:.25e}", n)), short);
        let small = (bits >> 40) as f64 / 1000.0;
        assert_eq!(float(&format!("{}", small)), machine(&format!("{}", small)));
        assert_eq!(float(&format!("{:.9}", small)), machine(&format!("{:.9}", small)));
    }
}

#[test]
fn what_is_no_number() {
    assert_eq!(float("inf"), "inf");
    assert_eq!(float("-inf"), "-inf");
    assert_eq!(float("NaN"), "NaN");
    for t in ["", "-", ".", "e5", "1e", "1e+", "x", "1.5x", "Infinity", "1 "] {
        assert!(Float::new(t).is_none());
    }
}

#[test]
fn documents_hold_rounded_floats() {
    for t in ["1.50", "1e400", "-1e400", "0.30000000000000001", "9223372036854775808", "1e-400", "5."] {
        let text = format!("x: {}\n", t);
        let v = value_of(&text);
        assert_eq!(v, Value::Float(Float::new(&machine(t)).unwrap()));
        let mut m = SconMap::new();
        m.insert("x".into(), v.clone());
        assert_eq!(encode(&Value::Object(m)), format!("x: {}", machine(t)));
        let arena = bumpalo::Bump::new();
        match BorrowedDecoder::new(&arena).decode(&text).unwrap() {
            BorrowedValue::Object(o) => match o.get("x") {
                Some(BorrowedValue::Float(f)) => assert_eq!(f.as_str(), machine(t)),
                _ => panic!("no float"),
            },
            _ => panic!("no object"),
        }
        let tape = TapeDecoder::new().decode(&text).unwrap();
        match &tape.nodes[2] {
            Node::Float(f) => assert_eq!(f.as_str(), machine(t)),
            _ => panic!("no float"),
        }
    }
    assert_eq!(value_of("x: 0.3"), value_of("x: 0.29999999999999998"));
    assert_ne!(value_of("x: 0.3"), value_of("x: 0.30000000000000004"));
}
