//! Which texts are numbers, and which number a text is.

use vstd::prelude::*;
use crate::float::rounded;
use crate::number::{
    all_digits, digits_end, digits_value, exponent_start, fraction_end, integer_of, integer_text,
    is_decimal, is_digit, lemma_digits_end, lemma_digits_text, length_of, mantissa, number_of,
    sign_len, whole_end, Num,
};
use crate::text::Text;

verus! {

// ---------------------------------------------------------------------------
// Whole numbers

/// A row of `n` zeros.
pub open spec fn noughts(n: nat) -> Text {
    Seq::new(n, |i: int| '0')
}

/// Zeros before digits do not count.
pub proof fn lemma_noughts(n: nat, t: Text)
    requires
        all_digits(t),
    ensures
        all_digits(noughts(n) + t),
        digits_value(noughts(n) + t) == digits_value(t),
    decreases t.len(), n,
{
    let s = noughts(n) + t;
    assert forall|i: int| 0 <= i < s.len() implies is_digit(#[trigger] s[i]) by {
        if i >= n {
            assert(s[i] == t[i - n]);
        }
    }
    if t.len() == 0 {
        assert(s =~= noughts(n));
        if n > 0 {
            let m = (n - 1) as nat;
            lemma_noughts(m, t);
            assert(noughts(m) + t =~= noughts(m));
            assert(s.drop_last() =~= noughts(m));
        } else {
            assert(s =~= t);
        }
    } else {
        let u = t.drop_last();
        assert(all_digits(u)) by {
            assert forall|i: int| 0 <= i < u.len() implies is_digit(#[trigger] u[i]) by {
                assert(u[i] == t[i]);
            }
        }
        lemma_noughts(n, u);
        assert(s.drop_last() =~= noughts(n) + u);
        assert(s.last() == t.last());
    }
}

/// Digits up to a position.
pub proof fn lemma_digits_to(t: Text, i: int, e: int)
    requires
        0 <= i <= e <= t.len(),
        forall|j: int| i <= j < e ==> is_digit(#[trigger] t[j]),
        e < t.len() ==> !is_digit(t[e]),
    ensures
        digits_end(t, i) == e,
    decreases e - i,
{
    if i < e {
        lemma_digits_to(t, i + 1, e);
    }
}

/// Digits are the whole number that they stand for, with zeros before them or
/// without, and with a minus sign its opposite. A plus sign does not count.
pub proof fn digits_are_a_whole_number(n: nat, z: nat)
    requires
        n <= i64::MAX,
    ensures
        number_of(noughts(z) + integer_text(n as int)) == Num::Whole(n as i64),
        number_of(seq!['-'] + noughts(z) + integer_text(n as int)) == Num::Whole((-n) as i64),
        number_of(seq!['+'] + noughts(z) + integer_text(n as int)) == Num::Whole(n as i64),
{
    let digits = integer_text(n as int);
    let d = noughts(z) + digits;
    lemma_digits_text(n);
    lemma_noughts(z, digits);
    assert(is_digit(d[0]));
    lemma_digits_to(d, 0, d.len() as int);
    assert(d.subrange(0, d.len() as int) =~= d);
    let m = seq!['-'] + noughts(z) + digits;
    let p = seq!['+'] + noughts(z) + digits;
    assert(m =~= seq!['-'] + d);
    assert(p =~= seq!['+'] + d);
    assert forall|j: int| 1 <= j < m.len() implies is_digit(#[trigger] m[j]) by {
        assert(m[j] == d[j - 1]);
    }
    assert forall|j: int| 1 <= j < p.len() implies is_digit(#[trigger] p[j]) by {
        assert(p[j] == d[j - 1]);
    }
    lemma_digits_to(m, 1, m.len() as int);
    lemma_digits_to(p, 1, p.len() as int);
    assert(m.subrange(1, m.len() as int) =~= d);
    assert(p.subrange(1, p.len() as int) =~= d);
    assert(m[0] == '-' && p[0] == '+');
}

// ---------------------------------------------------------------------------
// Decimal numbers

/// A sign, or none.
pub open spec fn is_sign(s: Text) -> bool {
    s == seq!['-'] || s == seq!['+'] || s.len() == 0
}

/// An exponent with a sign or without.
pub open spec fn is_exponent(x: Text) -> bool {
    &&& x.len() >= 2
    &&& x[0] == 'e' || x[0] == 'E'
    &&& {
        ||| all_digits(x.subrange(1, x.len() as int))
        ||| x.len() >= 3 && (x[1] == '-' || x[1] == '+') && all_digits(
            x.subrange(2, x.len() as int),
        )
    }
}

/// Digits with a point between, before or behind them, with a sign or without,
/// and with an exponent or without, are a number with decimals: the one that is
/// nearest to what is written.
#[verifier::rlimit(40)]
pub proof fn digits_with_a_point_are_a_decimal_number(s: Text, a: Text, b: Text, x: Text)
    requires
        is_sign(s),
        all_digits(a),
        all_digits(b),
        a.len() + b.len() > 0,
        x.len() == 0 || is_exponent(x),
    ensures
        number_of(s + a + seq!['.'] + b + x) == Num::Decimal(rounded(s + a + seq!['.'] + b + x)),
{
    let t = s + a + seq!['.'] + b + x;
    let n = s.len() as int;
    let p = n + a.len();
    let e = p + 1 + b.len();
    assert(s.len() > 0 ==> t[0] == s[0]);
    assert(t[p] == '.');
    assert forall|j: int| n <= j < p implies is_digit(#[trigger] t[j]) by {
        assert(t[j] == a[j - n]);
    }
    assert forall|j: int| p + 1 <= j < e implies is_digit(#[trigger] t[j]) by {
        assert(t[j] == b[j - p - 1]);
    }
    assert forall|j: int| e <= j < t.len() implies #[trigger] t[j] == x[j - e] by {}
    if s.len() == 0 {
        if a.len() > 0 {
            assert(is_digit(t[0]));
        }
    }
    assert(sign_len(t) == n);
    lemma_digits_to(t, n, p);
    lemma_digits_to(t, p + 1, e);
    assert(whole_end(t) == p);
    assert(fraction_end(t) == e);
    assert(mantissa(t).len() == a.len() + b.len());
    if x.len() > 0 {
        assert(t[e] == x[0]);
        let r = x.subrange(1, x.len() as int);
        assert(t[e + 1] == x[1]);
        if all_digits(r) {
            assert(is_digit(r[0]));
            assert forall|j: int| e + 1 <= j < t.len() implies is_digit(#[trigger] t[j]) by {
                assert(t[j] == r[j - e - 1]);
            }
            lemma_digits_to(t, e + 1, t.len() as int);
        } else {
            let q = x.subrange(2, x.len() as int);
            assert forall|j: int| e + 2 <= j < t.len() implies is_digit(#[trigger] t[j]) by {
                assert(t[j] == q[j - e - 2]);
            }
            lemma_digits_to(t, e + 2, t.len() as int);
        }
    }
    assert(is_decimal(t));
    assert(integer_of(t) is None);
    assert(is_digit(t[n]) || t[n] == '.') by {
        if a.len() > 0 {
            assert(is_digit(t[n]));
        }
    }
}

/// Digits with an exponent and no point are a number with decimals too.
#[verifier::rlimit(40)]
pub proof fn digits_with_an_exponent_are_a_decimal_number(s: Text, a: Text, x: Text)
    requires
        is_sign(s),
        all_digits(a),
        a.len() > 0,
        is_exponent(x),
    ensures
        number_of(s + a + x) == Num::Decimal(rounded(s + a + x)),
{
    let t = s + a + x;
    let n = s.len() as int;
    let e = n + a.len();
    assert(s.len() > 0 ==> t[0] == s[0]);
    assert forall|j: int| n <= j < e implies is_digit(#[trigger] t[j]) by {
        assert(t[j] == a[j - n]);
    }
    assert forall|j: int| e <= j < t.len() implies #[trigger] t[j] == x[j - e] by {}
    assert(is_digit(t[n]));
    assert(sign_len(t) == n);
    assert(t[e] == x[0]);
    lemma_digits_to(t, n, e);
    assert(whole_end(t) == e);
    assert(fraction_end(t) == e);
    assert(mantissa(t).len() == a.len());
    let r = x.subrange(1, x.len() as int);
    assert(t[e + 1] == x[1]);
    if all_digits(r) {
        assert(is_digit(r[0]));
        assert forall|j: int| e + 1 <= j < t.len() implies is_digit(#[trigger] t[j]) by {
            assert(t[j] == r[j - e - 1]);
        }
        lemma_digits_to(t, e + 1, t.len() as int);
    } else {
        let q = x.subrange(2, x.len() as int);
        assert forall|j: int| e + 2 <= j < t.len() implies is_digit(#[trigger] t[j]) by {
            assert(t[j] == q[j - e - 2]);
        }
        lemma_digits_to(t, e + 2, t.len() as int);
    }
    assert(is_decimal(t));
    assert(integer_of(t) is None);
}

/// Whether `c` can stand in a number.
pub open spec fn is_figure(c: char) -> bool {
    is_digit(c) || c == '.' || c == '-' || c == '+' || c == 'e' || c == 'E'
}

/// A text with a character that can stand in no number is none, nor is one that
/// begins with a letter, nor an empty one.
pub proof fn other_texts_are_no_numbers(t: Text, i: int)
    requires
        t.len() == 0 || (0 <= i < t.len() && !is_figure(t[i])) || (t[0] == 'e' || t[0] == 'E'),
    ensures
        number_of(t) == Num::Other,
{
    if t.len() > 0 && !(t[0] == 'e' || t[0] == 'E') {
        let a = sign_len(t);
        let b = whole_end(t);
        lemma_digits_end(t, a);
        let p = t.subrange(a, b);
        assert(a <= i < b ==> is_digit(p[i - a]));
        assert(i >= b);
        let f = fraction_end(t);
        if b < t.len() && t[b] == '.' {
            lemma_digits_end(t, b + 1);
            let q = t.subrange(b + 1, f);
            assert(b + 1 <= i < f ==> is_digit(q[i - b - 1]));
        }
        assert(i >= f);
        if let Some(x) = exponent_start(t) {
            if x < t.len() {
                lemma_digits_end(t, x);
                let r = t.subrange(x, digits_end(t, x));
                assert(x <= i < digits_end(t, x) ==> is_digit(r[i - x]));
            }
        }
        assert(!is_decimal(t));
        assert(integer_of(t) is None);
    }
}

// ---------------------------------------------------------------------------
// Lengths

/// A length is what its digits stand for; a text that is not all digits, a plus
/// sign before them aside, is none.
pub proof fn a_length_is_read_from_its_digits(n: nat, t: Text, i: int)
    requires
        n <= usize::MAX,
        0 < i < t.len(),
        !is_digit(t[i]),
    ensures
        length_of(integer_text(n as int)) == Some(n),
        length_of(seq!['+'] + integer_text(n as int)) == Some(n),
        length_of(t) is None,
        length_of(seq![]) is None,
{
    let d = integer_text(n as int);
    lemma_digits_text(n);
    assert(is_digit(d[0]));
    let p = seq!['+'] + d;
    assert(p.subrange(1, p.len() as int) =~= d);
    if t[0] == '+' {
        let r = t.subrange(1, t.len() as int);
        assert(!is_digit(r[i - 1]));
    }
}

} // verus!
