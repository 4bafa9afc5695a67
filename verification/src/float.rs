//! Numbers that are not integers: machine floats, each by the shortest decimal
//! text that stands for it.

use vstd::prelude::*;
use crate::json::{json_node, json_number, json_number_of, JsonNode};
use crate::number::{
    all_digits, bounds, chars_are_decimal, decimal_at, digits_end, digits_text, digits_up_to,
    exponent_start, exponent_value, fraction_end, integer_of, integer_text, integer_to_text,
    is_decimal, is_digit, json_form, json_form_of, lemma_digits_end, lemma_digits_text, lemma_parts,
    mantissa, mantissa_digits, number_of, push_part, push_zeros, sign_len, stripped, whole_end,
    without_leading_zeros, without_trailing_zeros, zeros, Decimal, DecimalParts, Num,
};
use crate::text::{chars_of, owned, same_text, Text};
use crate::value::Val;

verus! {

// ---------------------------------------------------------------------------
// The text of a float

/// The number that the decimal text `t` stands for.
pub open spec fn exact(t: Text) -> Decimal {
    decimal_at(t, exponent_value(t))
}

/// A minus or nothing.
pub open spec fn sign_text(neg: bool) -> Text {
    if neg {
        seq!['-']
    } else {
        seq![]
    }
}

/// A number as it is written: with the point in its place where the number is
/// neither large nor small, else with one digit before the point and an
/// exponent. There is always a point or an exponent.
pub open spec fn float_text(d: Decimal) -> Text {
    let n = d.digits.len() as int;
    sign_text(d.neg) + (if n == 0 {
        seq!['0', '.', '0']
    } else if n <= d.point <= 16 {
        d.digits + zeros(d.point - n) + seq!['.', '0']
    } else if 0 < d.point <= 16 {
        d.digits.subrange(0, d.point) + seq!['.'] + d.digits.subrange(d.point, n)
    } else if -5 < d.point <= 0 {
        seq!['0', '.'] + zeros(-d.point) + d.digits
    } else if n == 1 {
        d.digits + seq!['e'] + integer_text(d.point - 1)
    } else {
        seq![d.digits[0], '.'] + d.digits.subrange(1, n) + seq!['e'] + integer_text(d.point - 1)
    })
}

/// A float that is too large to be told from infinity.
pub open spec fn infinite_text(neg: bool) -> Text {
    sign_text(neg) + seq!['i', 'n', 'f']
}

/// Zero, with a sign or without.
pub open spec fn zero_text(neg: bool) -> Text {
    sign_text(neg) + seq!['0', '.', '0']
}

/// The text of the float that is nearest to the number that the decimal text `t`
/// stands for. What is beyond all floats is infinite or zero; in between a JSON
/// number says which float it is.
pub open spec fn rounded(t: Text) -> Text {
    let d = exact(t);
    if d.digits.len() == 0 || d.point < -400 {
        zero_text(d.neg)
    } else if d.point > 400 {
        infinite_text(d.neg)
    } else {
        match json_number_of(json_form(d)) {
            Val::Float(u) if is_decimal(u) => float_text(exact(u)),
            _ => infinite_text(d.neg),
        }
    }
}

/// Whether `u` is a decimal text that names a float: the same number, written
/// another way, is read as the float of that text.
pub open spec fn names_float(u: Text) -> bool {
    let d = exact(u);
    &&& is_decimal(u)
    &&& -400 <= d.point <= 400
    &&& json_number_of(json_form(d)) == Val::Float(u)
}

/// The float that a text names, by its own text: a decimal text the nearest
/// one, and the texts of the floats that are no numbers themselves.
pub open spec fn float_of(t: Text) -> Option<Text> {
    if is_decimal(t) {
        Some(rounded(t))
    } else if t == "inf"@ || t == "-inf"@ || t == "NaN"@ {
        Some(t)
    } else {
        None
    }
}

/// Whether `t` is the text of a float: it reads back as itself, or is that of a
/// float that is no number.
pub open spec fn is_float_text(t: Text) -> bool {
    number_of(t) == Num::Decimal(t) || t == "inf"@ || t == "-inf"@ || t == "NaN"@
}

// ---------------------------------------------------------------------------
// Texts of floats read back

/// Whether the digits of a number have no zero at either end, and zero has none.
pub open spec fn is_normal(d: Decimal) -> bool {
    &&& all_digits(d.digits)
    &&& d.digits.len() > 0 ==> d.digits[0] != '0' && d.digits.last() != '0'
    &&& d.digits.len() == 0 ==> d.point == 0
}

/// Where a row of digits ends.
proof fn lemma_row(t: Text, i: int, e: int)
    requires
        0 <= i <= e <= t.len(),
        forall|j: int| i <= j < e ==> is_digit(#[trigger] t[j]),
        e < t.len() ==> !is_digit(t[e]),
    ensures
        digits_end(t, i) == e,
    decreases e - i,
{
    if i < e {
        lemma_row(t, i + 1, e);
    }
}

/// A part of a row of digits is one.
proof fn lemma_some_digits(s: Text, a: int, b: int)
    requires
        all_digits(s),
        0 <= a <= b <= s.len(),
    ensures
        all_digits(s.subrange(a, b)),
{
    let p = s.subrange(a, b);
    assert forall|i: int| 0 <= i < p.len() implies is_digit(#[trigger] p[i]) by {
        assert(p[i] == s[a + i]);
    }
}

/// Digits one behind the other.
proof fn lemma_more_digits(a: Text, b: Text)
    requires
        all_digits(a),
        all_digits(b),
    ensures
        all_digits(a + b),
{
    let p = a + b;
    assert forall|i: int| 0 <= i < p.len() implies is_digit(#[trigger] p[i]) by {
        if i < a.len() {
            assert(p[i] == a[i]);
        } else {
            assert(p[i] == b[i - a.len()]);
        }
    }
}

/// Zeros are digits.
proof fn lemma_zeros(n: int)
    ensures
        all_digits(zeros(n)),
{
}

/// Digits behind zeros, without the zeros.
proof fn lemma_leading(n: int, s: Text)
    requires
        n >= 0,
        s.len() > 0 ==> s[0] != '0',
    ensures
        without_leading_zeros(zeros(n) + s) == s,
    decreases n,
{
    let t = zeros(n) + s;
    if n > 0 {
        lemma_leading(n - 1, s);
        assert(t.subrange(1, t.len() as int) =~= zeros(n - 1) + s);
    } else {
        assert(t =~= s);
    }
}

/// Digits before zeros, without the zeros.
proof fn lemma_trailing(s: Text, n: int)
    requires
        n >= 0,
        s.len() > 0 ==> s.last() != '0',
    ensures
        without_trailing_zeros(s + zeros(n)) == s,
    decreases n,
{
    let t = s + zeros(n);
    if n > 0 {
        lemma_trailing(s, n - 1);
        assert(t.drop_last() =~= s + zeros(n - 1));
    } else {
        assert(t =~= s);
    }
}

/// What is left of digits is digits, and has no zero at either end.
proof fn lemma_stripped(s: Text)
    requires
        all_digits(s),
    ensures
        ({
            let r = without_trailing_zeros(without_leading_zeros(s));
            &&& all_digits(r)
            &&& r.len() > 0 ==> r[0] != '0' && r.last() != '0'
        }),
{
    lemma_without_leading(s);
    lemma_without_trailing(without_leading_zeros(s));
}

/// Digits without the zeros that they begin with.
proof fn lemma_without_leading(s: Text)
    requires
        all_digits(s),
    ensures
        all_digits(without_leading_zeros(s)),
        without_leading_zeros(s).len() > 0 ==> without_leading_zeros(s)[0] != '0',
    decreases s.len(),
{
    if s.len() > 0 && s[0] == '0' {
        lemma_some_digits(s, 1, s.len() as int);
        lemma_without_leading(s.subrange(1, s.len() as int));
    }
}

/// Digits without the zeros that they end with.
proof fn lemma_without_trailing(s: Text)
    requires
        all_digits(s),
    ensures
        all_digits(without_trailing_zeros(s)),
        without_trailing_zeros(s).len() > 0 ==> without_trailing_zeros(s)[0] == s[0]
            && without_trailing_zeros(s).last() != '0',
    decreases s.len(),
{
    if s.len() > 0 && s.last() == '0' {
        assert(s.drop_last() =~= s.subrange(0, s.len() - 1));
        lemma_some_digits(s, 0, s.len() - 1);
        lemma_without_trailing(s.drop_last());
    }
}

/// The number that a decimal text stands for is normal.
proof fn lemma_exact(t: Text)
    requires
        is_decimal(t),
    ensures
        is_normal(exact(t)),
{
    let a = sign_len(t);
    let b = whole_end(t);
    let e = fraction_end(t);
    lemma_parts(t);
    lemma_digits_end(t, a);
    if e > b {
        lemma_digits_end(t, b + 1);
        lemma_more_digits(t.subrange(a, b), t.subrange(b + 1, e));
    } else {
        assert(mantissa(t) =~= t.subrange(a, b));
    }
    lemma_stripped(mantissa(t));
}

/// A sign or none, digits, a point and digits where `b` has some, and an
/// exponent or none.
pub open spec fn composed(s: Text, a: Text, b: Text, k: Option<int>) -> Text {
    let p: Text = if b.len() > 0 {
        seq!['.'] + b
    } else {
        seq![]
    };
    let x: Text = match k {
        Some(n) => seq!['e'] + integer_text(n),
        None => seq![],
    };
    s + a + p + x
}

/// How a text is read that is a sign or none, digits, a point and digits or
/// none, and an exponent or none.
proof fn lemma_composed(s: Text, a: Text, b: Text, k: Option<int>)
    requires
        s == seq!['-'] || s.len() == 0,
        a.len() > 0,
        all_digits(a),
        all_digits(b),
    ensures
        ({
            let t = composed(s, a, b, k);
            &&& is_decimal(t)
            &&& sign_len(t) == s.len()
            &&& whole_end(t) == s.len() + a.len()
            &&& mantissa(t) == a + b
            &&& exponent_value(t) == (match k {
                Some(n) => n,
                None => 0,
            })
            &&& (t[0] == '-') == (s.len() > 0)
            &&& is_digit(t[sign_len(t)])
            &&& sign_len(t) < t.len()
            &&& (b.len() > 0 || k is Some) ==> integer_of(t) is None
        }),
{
    let point = b.len() > 0;
    let p: Text = if point {
        seq!['.'] + b
    } else {
        seq![]
    };
    let x: Text = match k {
        Some(n) => seq!['e'] + integer_text(n),
        None => seq![],
    };
    let t = s + a + p + x;
    let i = s.len() as int;
    let w = i + a.len();
    let f = w + p.len();
    assert(is_digit(a[0]));
    assert(t[i] == a[0]);
    assert(sign_len(t) == i);
    assert forall|j: int| i <= j < w implies is_digit(#[trigger] t[j]) by {
        assert(t[j] == a[j - i]);
    }
    if w < t.len() {
        if point {
            assert(t[w] == '.');
        } else {
            assert(t[w] == 'e');
        }
    }
    lemma_row(t, i, w);
    assert(t.subrange(i, w) =~= a);
    if f < t.len() {
        assert(t[f] == 'e');
    }
    if point {
        assert forall|j: int| w + 1 <= j < f implies is_digit(#[trigger] t[j]) by {
            assert(t[j] == b[j - w - 1]);
        }
        lemma_row(t, w + 1, f);
        assert(t.subrange(w + 1, f) =~= b);
    } else {
        assert(a + b =~= a);
    }
    assert(fraction_end(t) == f);
    assert(mantissa(t) =~= a + b);
    if let Some(n) = k {
        let m = if n < 0 {
            (-n) as nat
        } else {
            n as nat
        };
        let d = digits_text(m);
        lemma_digits_text(m);
        let z = if n < 0 {
            f + 2
        } else {
            f + 1
        };
        assert(is_digit(d[0]));
        if n < 0 {
            assert(t[f + 1] == '-');
        } else {
            assert(t[f + 1] == d[0]);
        }
        assert(exponent_start(t) == Some(z));
        assert forall|j: int| z <= j < t.len() implies is_digit(#[trigger] t[j]) by {
            assert(t[j] == d[j - z]);
        }
        lemma_row(t, z, t.len() as int);
        assert(t.subrange(z, t.len() as int) =~= d);
        assert(t[z - 1] == (if n < 0 {
            '-'
        } else {
            'e'
        }));
    }
}

/// Whether `t` is a decimal text of the number `d` that no integer has.
pub open spec fn reads_as(t: Text, d: Decimal) -> bool {
    &&& is_decimal(t)
    &&& exact(t) == d
    &&& integer_of(t) is None
    &&& sign_len(t) < t.len()
    &&& is_digit(t[sign_len(t)])
}

/// A text with the digits and the exponent of a number reads back as the number.
proof fn lemma_reads_as(d: Decimal, a: Text, b: Text, k: Option<int>)
    requires
        a.len() > 0,
        all_digits(a),
        all_digits(b),
        b.len() > 0 || k is Some,
        without_trailing_zeros(without_leading_zeros(a + b)) == d.digits,
        d.point == (if d.digits.len() == 0 {
            0
        } else {
            a.len() - ((a + b).len() - without_leading_zeros(a + b).len()) + (match k {
                Some(n) => n,
                None => 0,
            })
        }),
    ensures
        reads_as(composed(sign_text(d.neg), a, b, k), d),
{
    let s = sign_text(d.neg);
    lemma_composed(s, a, b, k);
    let t = composed(s, a, b, k);
    assert(exact(t) == d);
}

/// Zero.
proof fn lemma_form_zero(d: Decimal)
    requires
        is_normal(d),
        d.digits.len() == 0,
    ensures
        reads_as(float_text(d), d),
{
    let s = sign_text(d.neg);
    let zero: Text = seq!['0'];
    assert(zero + zero =~= zeros(2) + seq![]);
    lemma_leading(2, seq![]);
    assert(d.digits =~= seq![]);
    lemma_reads_as(d, zero, zero, None);
    assert(float_text(d) =~= composed(s, zero, zero, None));
}

/// A whole number.
proof fn lemma_form_whole(d: Decimal)
    requires
        is_normal(d),
        0 < d.digits.len() <= d.point <= 16,
    ensures
        reads_as(float_text(d), d),
{
    let s = sign_text(d.neg);
    let g = d.digits;
    let k = d.point - g.len();
    let zero: Text = seq!['0'];
    let a = g + zeros(k);
    lemma_zeros(k);
    lemma_more_digits(g, zeros(k));
    lemma_leading(0, a + zero);
    assert(zeros(0) + (a + zero) =~= a + zero);
    assert(a + zero =~= g + zeros(k + 1));
    lemma_trailing(g, k + 1);
    lemma_reads_as(d, a, zero, None);
    assert(float_text(d) =~= composed(s, a, zero, None));
}

/// A number with digits on both sides of the point.
proof fn lemma_form_middle(d: Decimal)
    requires
        is_normal(d),
        0 < d.point <= 16,
        d.point < d.digits.len(),
    ensures
        reads_as(float_text(d), d),
{
    let s = sign_text(d.neg);
    let g = d.digits;
    let n = g.len() as int;
    let a = g.subrange(0, d.point);
    let b = g.subrange(d.point, n);
    lemma_some_digits(g, 0, d.point);
    lemma_some_digits(g, d.point, n);
    assert(a + b =~= g);
    lemma_plain_digits(g);
    lemma_reads_as(d, a, b, None);
    assert(float_text(d) =~= composed(s, a, b, None));
}

/// A number below one.
proof fn lemma_form_small(d: Decimal)
    requires
        is_normal(d),
        d.digits.len() > 0,
        -5 < d.point <= 0,
    ensures
        reads_as(float_text(d), d),
{
    let s = sign_text(d.neg);
    let g = d.digits;
    let zero: Text = seq!['0'];
    let b = zeros(-d.point) + g;
    lemma_zeros(-d.point);
    lemma_more_digits(zeros(-d.point), g);
    assert(zero + b =~= zeros(1 - d.point) + g);
    lemma_leading(1 - d.point, g);
    lemma_plain_digits(g);
    lemma_reads_as(d, zero, b, None);
    assert(float_text(d) =~= composed(s, zero, b, None));
}

/// A number with an exponent.
proof fn lemma_form_exponent(d: Decimal)
    requires
        is_normal(d),
        d.digits.len() > 0,
        d.point > 16 || d.point <= -5,
    ensures
        reads_as(float_text(d), d),
{
    let s = sign_text(d.neg);
    let g = d.digits;
    let n = g.len() as int;
    let a = g.subrange(0, 1);
    let b = g.subrange(1, n);
    lemma_some_digits(g, 0, 1);
    lemma_some_digits(g, 1, n);
    assert(a + b =~= g);
    lemma_plain_digits(g);
    lemma_reads_as(d, a, b, Some(d.point - 1));
    assert(float_text(d) =~= composed(s, a, b, Some(d.point - 1)));
}

/// The text of a number reads back as the number.
proof fn lemma_float_text(d: Decimal)
    requires
        is_normal(d),
    ensures
        reads_as(float_text(d), d),
{
    let n = d.digits.len() as int;
    if n == 0 {
        lemma_form_zero(d);
    } else if n <= d.point <= 16 {
        lemma_form_whole(d);
    } else if 0 < d.point <= 16 {
        lemma_form_middle(d);
    } else if -5 < d.point <= 0 {
        lemma_form_small(d);
    } else {
        lemma_form_exponent(d);
    }
}

/// Digits without a zero at either end stay as they are.
proof fn lemma_plain_digits(g: Text)
    requires
        g.len() > 0,
        g[0] != '0',
        g.last() != '0',
    ensures
        without_leading_zeros(g) == g,
        without_trailing_zeros(g) == g,
{
}

/// Zero reads back.
proof fn lemma_zero_reads(neg: bool)
    ensures
        is_decimal(zero_text(neg)),
        rounded(zero_text(neg)) == zero_text(neg),
        number_of(zero_text(neg)) == Num::Decimal(zero_text(neg)),
{
    let d = Decimal { neg, digits: seq![], point: 0 };
    lemma_float_text(d);
    assert(float_text(d) == zero_text(neg));
}

/// The text of a float that a decimal text names reads back.
proof fn lemma_named_reads(u: Text)
    requires
        names_float(u),
    ensures
        number_of(float_text(exact(u))) == Num::Decimal(float_text(exact(u))),
{
    let d = exact(u);
    let w = float_text(d);
    lemma_exact(u);
    lemma_float_text(d);
    if d.digits.len() == 0 {
        lemma_zero_reads(d.neg);
        assert(w == zero_text(d.neg));
    } else {
        assert(rounded(w) == w);
    }
}

// ---------------------------------------------------------------------------
// Floats

/// The exponent of a number in decimal notation, up to a limit on either side.
fn clipped_exponent(cs: &Vec<char>, e: usize) -> (r: i128)
    requires
        e == fraction_end(cs@),
        e <= cs@.len(),
        is_decimal(cs@),
    ensures
        -0x40_0000_0000_0000_0001 <= r <= 0x40_0000_0000_0000_0001,
        r == exponent_value(cs@) || (r == 0x40_0000_0000_0000_0001 && exponent_value(cs@) > r - 1)
            || (r == -0x40_0000_0000_0000_0001 && exponent_value(cs@) < r + 1),
{
    let n: usize = cs.len();
    if e < n && (cs[e] == 'e' || cs[e] == 'E') {
        let mut s: usize = e + 1;
        if s < n && (cs[s] == '-' || cs[s] == '+') {
            s += 1;
        }
        proof {
            lemma_digits_end(cs@, s as int);
        }
        let v: i128 = match digits_up_to(cs, s, n, 0x40_0000_0000_0000_0000) {
            Some(v) => v as i128,
            None => 0x40_0000_0000_0000_0001,
        };
        if cs[s - 1] == '-' {
            0 - v
        } else {
            v
        }
    } else {
        0
    }
}

/// A minus or nothing, and a text.
fn signed(neg: bool, t: &str) -> (r: String)
    ensures
        r@ == sign_text(neg) + t@,
{
    let mut out: String = String::new();
    if neg {
        out.push('-');
    }
    assert(out@ =~= sign_text(neg));
    out.push_str(t);
    out
}

/// A number as it is written.
fn float_form(d: &DecimalParts) -> (r: String)
    requires
        -0x1_0000_0000_0000_0000_0000 < d.point < 0x1_0000_0000_0000_0000_0000,
    ensures
        r@ == float_text(d@),
{
    let mut out: String = String::new();
    if d.neg {
        out.push('-');
    }
    let ghost sign = out@;
    assert(sign =~= sign_text(d.neg));
    let n: usize = d.digits.len();
    if n == 0 {
        out.push('0');
        out.push('.');
        out.push('0');
        assert(out@ =~= float_text(d@));
    } else if n as i128 <= d.point && d.point <= 16 {
        push_part(&mut out, &d.digits, 0, n);
        push_zeros(&mut out, d.point - n as i128);
        out.push('.');
        out.push('0');
        assert(d.digits@.subrange(0, n as int) =~= d.digits@);
        assert(out@ =~= float_text(d@));
    } else if 0 < d.point && d.point <= 16 {
        let p: usize = d.point as usize;
        push_part(&mut out, &d.digits, 0, p);
        out.push('.');
        push_part(&mut out, &d.digits, p, n);
        assert(out@ =~= float_text(d@));
    } else if -5 < d.point && d.point <= 0 {
        out.push('0');
        out.push('.');
        push_zeros(&mut out, 0 - d.point);
        push_part(&mut out, &d.digits, 0, n);
        assert(d.digits@.subrange(0, n as int) =~= d.digits@);
        assert(out@ =~= float_text(d@));
    } else {
        out.push(d.digits[0]);
        if n > 1 {
            out.push('.');
            push_part(&mut out, &d.digits, 1, n);
        }
        out.push('e');
        let e = integer_to_text(d.point - 1);
        out.push_str(e.as_str());
        assert(out@ =~= float_text(d@));
    }
    out
}

/// The number that a decimal text stands for, where it is not too large and not
/// too small for any float.
fn exact_parts(cs: &Vec<char>) -> (r: DecimalParts)
    requires
        is_decimal(cs@),
    ensures
        r.neg == exact(cs@).neg,
        r.digits@ == exact(cs@).digits,
        -0x80_0000_0000_0000_0000 < r.point < 0x80_0000_0000_0000_0000,
        r.point > 400 <==> exact(cs@).point > 400,
        r.point < -400 <==> exact(cs@).point < -400,
        -400 <= r.point <= 400 ==> r@ == exact(cs@),
{
    let (a, b, e) = bounds(cs);
    let m = mantissa_digits(cs, a, b, e);
    let (digits, lead) = stripped(&m);
    let x: i128 = clipped_exponent(cs, e);
    let point: i128 = if digits.len() == 0 {
        0
    } else {
        b as i128 - a as i128 - lead as i128 + x
    };
    DecimalParts { neg: cs[0] == '-', digits, point }
}

/// The text of the float that is nearest to the number that the characters stand
/// for.
fn round_decimal(cs: &Vec<char>) -> (r: String)
    requires
        is_decimal(cs@),
    ensures
        r@ == rounded(cs@),
        is_float_text(r@),
{
    proof {
        reveal_strlit("0.0");
        reveal_strlit("inf");
        reveal_strlit("-inf");
        assert("0.0"@ =~= seq!['0', '.', '0']);
        assert("inf"@ =~= seq!['i', 'n', 'f']);
        assert("-inf"@ =~= infinite_text(true));
        assert("inf"@ =~= infinite_text(false));
    }
    let d = exact_parts(cs);
    if d.digits.len() == 0 || d.point < -400 {
        proof {
            lemma_zero_reads(d.neg);
        }
        return signed(d.neg, "0.0");
    }
    if d.point > 400 {
        return signed(d.neg, "inf");
    }
    let j = json_form_of(&d);
    let v = json_number(j.as_str());
    match json_node(&v) {
        JsonNode::Number(None, u) => {
            let us = chars_of(u.as_str());
            proof {
                lemma_json_form(d@);
                lemma_named_reads(u@);
            }
            let f = exact_parts(&us);
            float_form(&f)
        },
        _ => signed(d.neg, "inf"),
    }
}

/// The form in which a number is handed to JSON has a point in it.
proof fn lemma_json_form(d: Decimal)
    ensures
        json_form(d).contains('.'),
{
    let t = json_form(d);
    let i = sign_text(d.neg).len() as int + 1;
    assert(t[i] == '.');
}

/// A machine float, by the shortest decimal text that stands for it.
#[derive(Debug)]
pub struct Float {
    text: String,
}

impl View for Float {
    type V = Text;

    closed spec fn view(&self) -> Text {
        self.text@
    }
}

impl Float {
    /// The text is that of a float.
    #[verifier::type_invariant]
    spec fn is_sound(self) -> bool {
        is_float_text(self.text@)
    }

    /// The float that a text names: the one nearest to the number that it stands
    /// for, or one that is no number.
    pub fn new(t: &str) -> (r: Option<Float>)
        ensures
            match r {
                Some(f) => float_of(t@) == Some(f@),
                None => float_of(t@) is None,
            },
    {
        let cs = chars_of(t);
        if chars_are_decimal(&cs) {
            return Some(Float { text: round_decimal(&cs) });
        }
        if same_text(t, "inf") || same_text(t, "-inf") || same_text(t, "NaN") {
            return Some(Float { text: owned(t) });
        }
        None
    }

    /// The float that is nearest to the number that the characters stand for.
    pub(crate) fn nearest(cs: &Vec<char>) -> (r: Float)
        requires
            is_decimal(cs@),
        ensures
            r@ == rounded(cs@),
    {
        Float { text: round_decimal(cs) }
    }

    /// The text of the float.
    pub fn as_str(&self) -> (r: &str)
        ensures
            r@ == self@,
            is_float_text(r@),
    {
        proof {
            use_type_invariant(self);
        }
        self.text.as_str()
    }
}

impl Clone for Float {
    fn clone(&self) -> (r: Float)
        ensures
            r@ == self@,
    {
        proof {
            use_type_invariant(self);
        }
        Float { text: owned(self.text.as_str()) }
    }
}

} // verus!
