//! Numbers written out: what the text of a number stands for, and that writing it
//! in another form keeps it.

use vstd::prelude::*;
use crate::figures::{is_exponent, lemma_digits_to, lemma_noughts, noughts};
use crate::number::{
    all_digits, decimal_of, digits_text, digits_value, exponent_of, exponent_start, fraction_end,
    integer_text, is_decimal, is_digit, json_form, json_number_text, lemma_digits_end,
    lemma_digits_text, mantissa, plain_text, positional, shown_text, sign_len, whole_end,
    without_leading_zeros, without_trailing_zeros, zeros, Decimal,
};
use crate::text::Text;

verus! {

// ---------------------------------------------------------------------------
// The parts of a number

/// A number as it is written: a sign, digits, digits behind a point, an exponent.
pub open spec fn figure(neg: bool, a: Text, dot: bool, b: Text, x: Text) -> Text {
    (if neg {
        seq!['-']
    } else {
        seq![]
    }) + a + (if dot {
        seq!['.'] + b
    } else {
        seq![]
    }) + x
}

/// The parts of a number as it is written.
#[verifier::rlimit(40)]
proof fn lemma_figure(neg: bool, a: Text, dot: bool, b: Text, x: Text)
    requires
        all_digits(a),
        all_digits(b),
        a.len() > 0,
        !dot ==> b.len() == 0,
        x.len() == 0 || is_exponent(x),
    ensures
        ({
            let t = figure(neg, a, dot, b, x);
            let n: int = if neg {
                1
            } else {
                0
            };
            &&& is_decimal(t)
            &&& sign_len(t) == n
            &&& whole_end(t) == n + a.len()
            &&& mantissa(t) == a + b
            &&& (t[0] == '-') == neg
            &&& fraction_end(t) == t.len() - x.len()
            &&& x.len() == 0 ==> exponent_start(t) is None
            &&& x.len() > 0 ==> exponent_start(t) == Some(
                t.len() - x.len() + (if x[1] == '-' || x[1] == '+' {
                    2int
                } else {
                    1int
                }),
            )
        }),
{
    let s: Text = if neg {
        seq!['-']
    } else {
        seq![]
    };
    let m: Text = if dot {
        seq!['.'] + b
    } else {
        seq![]
    };
    let t = figure(neg, a, dot, b, x);
    let n = s.len() as int;
    let p = n + a.len();
    let e = p + m.len();
    assert(t =~= s + a + m + x);
    assert forall|j: int| n <= j < p implies is_digit(#[trigger] t[j]) by {
        assert(t[j] == a[j - n]);
    }
    assert forall|j: int| e <= j < t.len() implies #[trigger] t[j] == x[j - e] by {}
    assert(is_digit(t[n]));
    assert(sign_len(t) == n);
    assert(t.subrange(n, p) =~= a);
    if x.len() > 0 {
        assert(t[e] == x[0]);
    }
    if dot {
        assert(t[p] == '.');
        lemma_digits_to(t, n, p);
        assert forall|j: int| p + 1 <= j < e implies is_digit(#[trigger] t[j]) by {
            assert(t[j] == b[j - p - 1]);
        }
        lemma_digits_to(t, p + 1, e);
        assert(t.subrange(p + 1, e) =~= b);
    } else {
        lemma_digits_to(t, n, p);
        assert(a + b =~= a);
        assert(a + Seq::<char>::empty() =~= a);
    }
    assert(mantissa(t) =~= a + b);
    if x.len() > 0 {
        let r = x.subrange(1, x.len() as int);
        assert(t[e + 1] == x[1]);
        if all_digits(r) {
            assert(is_digit(r[0]));
            assert forall|j: int| e + 1 <= j < t.len() implies is_digit(#[trigger] t[j]) by {
                assert(t[j] == r[j - e - 1]);
            }
            lemma_digits_to(t, e + 1, t.len() as int);
        } else {
            let q = x.subrange(2, x.len() as int);
            assert forall|j: int| e + 2 <= j < t.len() implies is_digit(#[trigger] t[j]) by {
                assert(t[j] == q[j - e - 2]);
            }
            lemma_digits_to(t, e + 2, t.len() as int);
        }
    }
}

// ---------------------------------------------------------------------------
// Zeros at either end

/// The zeros that digits begin with.
proof fn lemma_leading(s: Text)
    requires
        all_digits(s),
    ensures
        ({
            let r = without_leading_zeros(s);
            &&& r.len() <= s.len()
            &&& s == noughts((s.len() - r.len()) as nat) + r
            &&& all_digits(r)
            &&& r.len() > 0 ==> r[0] != '0'
        }),
    decreases s.len(),
{
    if s.len() > 0 && s[0] == '0' {
        let u = s.subrange(1, s.len() as int);
        assert(all_digits(u)) by {
            assert forall|i: int| 0 <= i < u.len() implies is_digit(#[trigger] u[i]) by {
                assert(u[i] == s[i + 1]);
            }
        }
        lemma_leading(u);
        let r = without_leading_zeros(u);
        assert(s =~= seq!['0'] + u);
        assert(s =~= noughts((s.len() - r.len()) as nat) + r);
    } else {
        assert(s =~= noughts(0) + s);
    }
}

/// The zeros that digits end with.
proof fn lemma_trailing(s: Text)
    requires
        all_digits(s),
    ensures
        ({
            let r = without_trailing_zeros(s);
            &&& r.len() <= s.len()
            &&& s == r + noughts((s.len() - r.len()) as nat)
            &&& all_digits(r)
            &&& r.len() > 0 ==> r.last() != '0'
        }),
    decreases s.len(),
{
    if s.len() > 0 && s.last() == '0' {
        let u = s.drop_last();
        assert(all_digits(u)) by {
            assert forall|i: int| 0 <= i < u.len() implies is_digit(#[trigger] u[i]) by {
                assert(u[i] == s[i]);
            }
        }
        lemma_trailing(u);
        let r = without_trailing_zeros(u);
        assert(s =~= u + seq!['0']);
        assert(s =~= r + noughts((s.len() - r.len()) as nat));
    } else {
        assert(s =~= s + noughts(0));
    }
}

/// Zeros before digits are taken out.
proof fn lemma_led(n: nat, r: Text)
    requires
        r.len() == 0 || r[0] != '0',
    ensures
        without_leading_zeros(noughts(n) + r) == r,
    decreases n,
{
    let s = noughts(n) + r;
    if n > 0 {
        lemma_led((n - 1) as nat, r);
        assert(s[0] == '0');
        assert(s.subrange(1, s.len() as int) =~= noughts((n - 1) as nat) + r);
    } else {
        assert(s =~= r);
    }
}

/// Zeros behind digits are taken out.
proof fn lemma_trailed(n: nat, r: Text)
    requires
        r.len() == 0 || r.last() != '0',
    ensures
        without_trailing_zeros(r + noughts(n)) == r,
    decreases n,
{
    let s = r + noughts(n);
    if n > 0 {
        lemma_trailed((n - 1) as nat, r);
        assert(s.last() == '0');
        assert(s.drop_last() =~= r + noughts((n - 1) as nat));
    } else {
        assert(s =~= r);
    }
}

/// Ten to the power of `n`.
pub open spec fn ten_to(n: nat) -> nat
    decreases n,
{
    if n == 0 {
        1
    } else {
        10 * ten_to((n - 1) as nat)
    }
}

/// Zeros behind digits multiply by ten each.
proof fn lemma_times_ten(r: Text, n: nat)
    ensures
        digits_value(r + noughts(n)) == digits_value(r) * ten_to(n),
    decreases n,
{
    let s = r + noughts(n);
    if n > 0 {
        let m = (n - 1) as nat;
        lemma_times_ten(r, m);
        assert(s.drop_last() =~= r + noughts(m));
        assert(s.last() == '0');
        let v = digits_value(r);
        let w = ten_to(m);
        assert(v * w * 10 == v * (10 * w)) by (nonlinear_arith);
    } else {
        assert(s =~= r);
        assert(digits_value(r) * 1 == digits_value(r));
    }
}

/// The number of tens that an exponent multiplies by.
pub open spec fn shift_of(x: Text) -> int {
    if x.len() == 0 {
        0
    } else if x[1] == '-' {
        -digits_value(x.subrange(2, x.len() as int))
    } else if x[1] == '+' {
        digits_value(x.subrange(2, x.len() as int)) as int
    } else {
        digits_value(x.subrange(1, x.len() as int)) as int
    }
}

/// The exponent of a number as it is written.
proof fn lemma_exponent(neg: bool, a: Text, dot: bool, b: Text, x: Text)
    requires
        all_digits(a),
        all_digits(b),
        a.len() > 0,
        !dot ==> b.len() == 0,
        x.len() == 0 || is_exponent(x),
        x.len() <= 4 || x.len() == 5 && (x[1] == '-' || x[1] == '+'),
    ensures
        exponent_of(figure(neg, a, dot, b, x)) == Some(shift_of(x)),
{
    let t = figure(neg, a, dot, b, x);
    lemma_figure(neg, a, dot, b, x);
    if x.len() > 0 {
        let k = t.len() - x.len();
        let front = figure(neg, a, dot, b, seq![]);
        assert(t =~= front + x);
        assert(t[k] == x[0]);
        assert(t[k + 1] == x[1]);
        assert(t.subrange(k + 1, t.len() as int) =~= x.subrange(1, x.len() as int));
        assert(t.subrange(k + 2, t.len() as int) =~= x.subrange(2, x.len() as int));
    }
}

/// Digits without the zeros at either end.
proof fn lemma_stripped(all: Text)
    requires
        all_digits(all),
    ensures
        ({
            let kept = without_leading_zeros(all);
            let digits = without_trailing_zeros(kept);
            &&& digits.len() <= kept.len() <= all.len()
            &&& digits.len() > 0 ==> digits[0] != '0' && digits.last() != '0'
            &&& digits_value(all) == digits_value(digits) * ten_to(
                (kept.len() - digits.len()) as nat,
            )
            &&& digits.len() == 0 ==> digits_value(all) == 0
        }),
{
    let kept = without_leading_zeros(all);
    let digits = without_trailing_zeros(kept);
    lemma_leading(all);
    lemma_trailing(kept);
    let z = (kept.len() - digits.len()) as nat;
    lemma_noughts((all.len() - kept.len()) as nat, kept);
    lemma_times_ten(digits, z);
    if digits.len() > 0 {
        assert(digits[0] == kept[0]);
    } else {
        assert(digits =~= seq![]);
        assert(digits_value(digits) == 0);
        assert(0 * ten_to(z) == 0);
    }
}

/// The number that a text stands for is the one that its digits, its point and
/// its exponent say: with the point behind all digits, the digits of the number
/// and those of the text differ by the tens that the exponents differ by.
#[verifier::rlimit(40)]
pub proof fn a_number_is_what_its_text_says(neg: bool, a: Text, dot: bool, b: Text, x: Text)
    requires
        all_digits(a),
        all_digits(b),
        a.len() > 0,
        !dot ==> b.len() == 0,
        x.len() == 0 || is_exponent(x),
        x.len() <= 4 || x.len() == 5 && (x[1] == '-' || x[1] == '+'),
    ensures
        ({
            let t = figure(neg, a, dot, b, x);
            let shift: int = if x.len() == 0 {
                0
            } else if x[1] == '-' {
                -digits_value(x.subrange(2, x.len() as int))
            } else if x[1] == '+' {
                digits_value(x.subrange(2, x.len() as int)) as int
            } else {
                digits_value(x.subrange(1, x.len() as int)) as int
            };
            decimal_of(t) matches Some(d) && {
                let more = (d.point - d.digits.len()) - (shift - b.len());
                &&& d.neg == neg
                &&& d.digits.len() > 0 ==> more >= 0 && digits_value(a + b) == digits_value(
                    d.digits,
                ) * ten_to(more as nat)
                &&& d.digits.len() == 0 ==> digits_value(a + b) == 0 && d.point == 0
                &&& d.digits.len() > 0 ==> d.digits[0] != '0' && d.digits.last() != '0'
            }
        }),
{
    lemma_figure(neg, a, dot, b, x);
    lemma_exponent(neg, a, dot, b, x);
    let all = a + b;
    assert(all_digits(all)) by {
        assert forall|i: int| 0 <= i < all.len() implies is_digit(#[trigger] all[i]) by {
            if i < a.len() {
                assert(all[i] == a[i]);
            } else {
                assert(all[i] == b[i - a.len()]);
            }
        }
    }
    lemma_stripped(all);
}

// ---------------------------------------------------------------------------
// Other forms

/// Whether the digits of a number have no zero at either end.
pub open spec fn is_reduced(d: Decimal) -> bool {
    &&& all_digits(d.digits)
    &&& d.digits.len() > 0 ==> d.digits[0] != '0' && d.digits.last() != '0'
    &&& d.digits.len() == 0 ==> d.point == 0
}

/// The number that a text stands for is reduced.
proof fn lemma_reduced(t: Text)
    requires
        decimal_of(t) is Some,
    ensures
        is_reduced(decimal_of(t)->0),
{
    let all = mantissa(t);
    lemma_mantissa(t);
    let kept = without_leading_zeros(all);
    let digits = without_trailing_zeros(kept);
    lemma_leading(all);
    lemma_trailing(kept);
    if digits.len() > 0 {
        assert(digits[0] == kept[0]);
    }
}

/// The digits of a number are digits.
proof fn lemma_mantissa(t: Text)
    ensures
        all_digits(mantissa(t)),
{
    lemma_digits_end(t, sign_len(t));
    let b = whole_end(t);
    let e = fraction_end(t);
    if b < t.len() && t[b] == '.' {
        lemma_digits_end(t, b + 1);
    }
    let p = t.subrange(sign_len(t), b);
    let m = mantissa(t);
    assert forall|i: int| 0 <= i < m.len() implies is_digit(#[trigger] m[i]) by {
        if i < p.len() {
            assert(m[i] == p[i]);
        } else {
            let q = t.subrange(b + 1, e);
            assert(m[i] == q[i - p.len()]);
        }
    }
}

/// A number without an exponent.
proof fn lemma_no_exponent(neg: bool, a: Text, dot: bool, b: Text, n: nat, r: Text, k: nat)
    requires
        all_digits(a),
        all_digits(b),
        a.len() > 0,
        !dot ==> b.len() == 0,
        a + b == noughts(n) + (r + noughts(k)),
        r.len() > 0 ==> r[0] != '0' && r.last() != '0',
        r.len() == 0 ==> k == 0,
    ensures
        decimal_of(figure(neg, a, dot, b, seq![])) == Some(
            Decimal {
                neg,
                digits: r,
                point: if r.len() == 0 {
                    0
                } else {
                    a.len() - n
                },
            },
        ),
{
    lemma_figure(neg, a, dot, b, seq![]);
    let rest = r + noughts(k);
    if r.len() > 0 {
        assert(rest[0] == r[0]);
    } else {
        assert(rest =~= seq![]);
    }
    lemma_led(n, rest);
    lemma_trailed(k, r);
}

/// The sign of a number.
pub open spec fn sign_text(neg: bool) -> Text {
    if neg {
        seq!['-']
    } else {
        seq![]
    }
}

/// Zero written out.
proof fn lemma_zero_out(d: Decimal, b: Text)
    requires
        is_reduced(d),
        d.digits.len() == 0,
        b == seq!['0'] || b.len() == 0,
    ensures
        decimal_of(figure(d.neg, seq!['0'], b.len() > 0, b, seq![])) == Some(d),
{
    let a = seq!['0'];
    let r = d.digits;
    let z = (1 + b.len()) as nat;
    assert(a + b =~= noughts(z) + (r + noughts(0)));
    lemma_no_exponent(d.neg, a, b.len() > 0, b, z, r, 0);
}

/// A number below one written out.
proof fn lemma_small_out(d: Decimal)
    requires
        is_reduced(d),
        d.digits.len() > 0,
        d.point <= 0,
    ensures
        decimal_of(figure(d.neg, seq!['0'], true, zeros(-d.point) + d.digits, seq![])) == Some(d),
{
    let a = seq!['0'];
    let r = d.digits;
    let f = zeros(-d.point) + r;
    assert(all_digits(f)) by {
        assert forall|i: int| 0 <= i < f.len() implies is_digit(#[trigger] f[i]) by {
            if i >= -d.point {
                assert(f[i] == r[i + d.point]);
            }
        }
    }
    let z = (1 - d.point) as nat;
    assert(a + f =~= noughts(z) + (r + noughts(0)));
    lemma_no_exponent(d.neg, a, true, f, z, r, 0);
}

/// A whole number written out.
proof fn lemma_whole_out(d: Decimal, b: Text)
    requires
        is_reduced(d),
        d.digits.len() > 0,
        d.point >= d.digits.len(),
        b == seq!['0'] || b.len() == 0,
    ensures
        decimal_of(
            figure(
                d.neg,
                d.digits + zeros(d.point - d.digits.len()),
                b.len() > 0,
                b,
                seq![],
            ),
        ) == Some(d),
{
    let r = d.digits;
    let n = r.len() as int;
    let a = r + zeros(d.point - n);
    assert(all_digits(a)) by {
        assert forall|i: int| 0 <= i < a.len() implies is_digit(#[trigger] a[i]) by {
            if i < n {
                assert(a[i] == r[i]);
            }
        }
    }
    let k = (d.point - n + b.len()) as nat;
    assert(a + b =~= noughts(0) + (r + noughts(k)));
    lemma_no_exponent(d.neg, a, b.len() > 0, b, 0, r, k);
}

/// A number with digits on both sides of the point written out.
proof fn lemma_mixed_out(d: Decimal)
    requires
        is_reduced(d),
        0 < d.point < d.digits.len(),
    ensures
        decimal_of(
            figure(
                d.neg,
                d.digits.subrange(0, d.point),
                true,
                d.digits.subrange(d.point, d.digits.len() as int),
                seq![],
            ),
        ) == Some(d),
{
    let r = d.digits;
    let a = r.subrange(0, d.point);
    let f = r.subrange(d.point, r.len() as int);
    assert(all_digits(a)) by {
        assert forall|i: int| 0 <= i < a.len() implies is_digit(#[trigger] a[i]) by {
            assert(a[i] == r[i]);
        }
    }
    assert(all_digits(f)) by {
        assert forall|i: int| 0 <= i < f.len() implies is_digit(#[trigger] f[i]) by {
            assert(f[i] == r[i + d.point]);
        }
    }
    assert(a + f =~= noughts(0) + (r + noughts(0)));
    lemma_no_exponent(d.neg, a, true, f, 0, r, 0);
}

/// A number that is written out, with a zero behind the point or without.
#[verifier::rlimit(40)]
proof fn lemma_written_out(d: Decimal, more: bool)
    requires
        is_reduced(d),
        more ==> d.digits.len() == 0 || d.point >= d.digits.len(),
    ensures
        decimal_of(
            sign_text(d.neg) + positional(d) + (if more {
                seq!['.', '0']
            } else {
                seq![]
            }),
        ) == Some(d),
{
    let n = d.digits.len() as int;
    let sign = sign_text(d.neg);
    let none = Seq::<char>::empty();
    let b: Text = if more {
        seq!['0']
    } else {
        seq![]
    };
    let tail: Text = if more {
        seq!['.', '0']
    } else {
        seq![]
    };
    let behind: Text = if more {
        seq!['.'] + b
    } else {
        seq![]
    };
    assert(tail =~= behind);
    let t = sign + positional(d) + tail;
    if n == 0 {
        lemma_zero_out(d, b);
        assert(t =~= sign + seq!['0'] + behind + none);
    } else if d.point <= 0 {
        let f = zeros(-d.point) + d.digits;
        lemma_small_out(d);
        assert(t =~= sign + seq!['0'] + (seq!['.'] + f) + none);
    } else if d.point >= n {
        lemma_whole_out(d, b);
        assert(t =~= sign + (d.digits + zeros(d.point - n)) + behind + none);
    } else {
        let a = d.digits.subrange(0, d.point);
        let f = d.digits.subrange(d.point, n);
        lemma_mixed_out(d);
        assert(t =~= sign + a + (seq!['.'] + f) + none);
    }
}

/// A number that is written without an exponent, with a zero behind the point or
/// without, is the same number; and texts of the same number are written alike.
pub proof fn writing_a_number_out_keeps_it(t: Text, u: Text)
    requires
        decimal_of(t) is Some,
    ensures
        decimal_of(plain_text(t)) == decimal_of(t),
        decimal_of(shown_text(t)) == decimal_of(t),
        decimal_of(u) == decimal_of(t) ==> plain_text(u) == plain_text(t) && shown_text(u)
            == shown_text(t),
{
    let d = decimal_of(t)->0;
    lemma_reduced(t);
    lemma_written_out(d, false);
    let plain = (if d.neg {
        seq!['-']
    } else {
        seq![]
    }) + positional(d);
    assert(plain + Seq::<char>::empty() =~= plain);
    if d.digits.len() <= d.point <= 15 || d.digits.len() == 0 {
        lemma_written_out(d, true);
    }
}
/// The digits of a small number.
proof fn lemma_few_digits(n: nat)
    requires
        n < 1000,
    ensures
        digits_text(n).len() <= 3,
{
    reveal_with_fuel(digits_text, 4);
}

/// A small exponent.
proof fn lemma_small_exponent(k: int)
    requires
        -1000 < k < 1000,
    ensures
        ({
            let x = seq!['e'] + integer_text(k);
            &&& is_exponent(x)
            &&& x.len() <= 4 || x.len() == 5 && (x[1] == '-' || x[1] == '+')
            &&& shift_of(x) == k
        }),
{
    let x = seq!['e'] + integer_text(k);
    let size: nat = if k < 0 {
        (-k) as nat
    } else {
        k as nat
    };
    lemma_digits_text(size);
    lemma_few_digits(size);
    let ds = digits_text(size);
    assert(is_digit(ds[0]));
    if k < 0 {
        assert(x[1] == '-');
        assert(x.subrange(2, x.len() as int) =~= ds);
    } else {
        assert(x[1] == ds[0]);
        assert(x.subrange(1, x.len() as int) =~= ds);
    }
}

/// One digit before the point.
proof fn lemma_one_before_the_point(neg: bool, r: Text, b: Text, x: Text, z: nat)
    requires
        r.len() > 0,
        all_digits(r),
        all_digits(b),
        r[0] != '0',
        r.last() != '0',
        seq![r[0]] + b == r + noughts(z),
        is_exponent(x),
        x.len() <= 4 || x.len() == 5 && (x[1] == '-' || x[1] == '+'),
    ensures
        decimal_of(figure(neg, seq![r[0]], true, b, x)) == Some(
            Decimal { neg, digits: r, point: 1 + shift_of(x) },
        ),
{
    let a = seq![r[0]];
    assert(is_digit(r[0]));
    lemma_figure(neg, a, true, b, x);
    lemma_exponent(neg, a, true, b, x);
    let all = r + noughts(z);
    assert(all[0] == r[0]);
    assert(all =~= noughts(0) + all);
    lemma_led(0, all);
    lemma_trailed(z, r);
}

/// The same texts, put together in another way.
proof fn lemma_put_together(s: Text, c: char, b: Text, i: Text)
    ensures
        s + (seq![c, '.'] + b + seq!['e'] + i) == s + seq![c] + (seq!['.'] + b) + (seq!['e'] + i),
{
    assert(seq![c, '.'] =~= seq![c] + seq!['.']);
    assert(s + (seq![c, '.'] + b + seq!['e'] + i) =~= s + seq![c] + (seq!['.'] + b) + (seq!['e']
        + i));
}

/// A number with digits as JSON writes one.
proof fn lemma_json_digits(d: Decimal)
    requires
        is_reduced(d),
        d.digits.len() > 0,
        -1000 < d.point - 1 < 1000,
    ensures
        decimal_of(json_form(d)) == Some(d),
{
    let r = d.digits;
    let sign: Text = if d.neg {
        seq!['-']
    } else {
        seq![]
    };
    let i = integer_text(d.point - 1);
    let one = r.len() == 1;
    let b: Text = if one {
        seq!['0']
    } else {
        r.subrange(1, r.len() as int)
    };
    assert(json_form(d) == sign + (seq![r[0], '.'] + b + seq!['e'] + i));
    lemma_put_together(sign, r[0], b, i);
    assert(figure(d.neg, seq![r[0]], true, b, seq!['e'] + i) == json_form(d));
    assert forall|j: int| 0 <= j < b.len() implies is_digit(#[trigger] b[j]) by {
        if !one {
            assert(b[j] == r[j + 1]);
        }
    }
    let z: nat = if one {
        1
    } else {
        0
    };
    assert(seq![r[0]] + b =~= r + noughts(z));
    lemma_small_exponent(d.point - 1);
    lemma_one_before_the_point(d.neg, r, b, seq!['e'] + i, z);
}

/// A number that is written as JSON writes one is the same number, where its
/// exponent takes at most three digits.
pub proof fn writing_a_number_as_json_keeps_it(t: Text)
    requires
        decimal_of(t) is Some,
        -1000 < (decimal_of(t)->0).point - 1 < 1000,
    ensures
        decimal_of(json_number_text(t)) == decimal_of(t),
{
    let d = decimal_of(t)->0;
    let r = d.digits;
    lemma_reduced(t);
    let sign: Text = if d.neg {
        seq!['-']
    } else {
        seq![]
    };
    if r.len() == 0 {
        lemma_written_out(d, true);
        assert(json_form(d) =~= sign + positional(d) + seq!['.', '0']);
    } else {
        lemma_json_digits(d);
    }
}

} // verus!
