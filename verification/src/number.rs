//! Numbers as text: integers in decimal, and the decimal texts of the numbers
//! that are not integers.

use vstd::prelude::*;
use crate::float::{rounded, Float};
use crate::text::{chars_of, owned, same_text, Text};

verus! {

// ---------------------------------------------------------------------------
// Digits

/// Whether `c` is a decimal digit.
pub open spec fn is_digit(c: char) -> bool {
    '0' <= c <= '9'
}

/// Whether every character of `s` is a decimal digit.
pub open spec fn all_digits(s: Text) -> bool {
    forall|i: int| 0 <= i < s.len() ==> is_digit(#[trigger] s[i])
}

/// The number that a decimal digit stands for.
pub open spec fn digit_value(c: char) -> nat {
    (c as u32 - '0' as u32) as nat
}

/// The number that a row of decimal digits stands for.
pub open spec fn digits_value(s: Text) -> nat
    decreases s.len(),
{
    if s.len() == 0 {
        0
    } else {
        digits_value(s.drop_last()) * 10 + digit_value(s.last())
    }
}

/// The digit that stands for `n`.
pub open spec fn digit_char(n: nat) -> char {
    (n + '0' as u32) as char
}

/// The decimal digits of `n`.
pub open spec fn digits_text(n: nat) -> Text
    decreases n,
{
    if n < 10 {
        seq![digit_char(n)]
    } else {
        digits_text(n / 10).push(digit_char(n % 10))
    }
}

/// The decimal text of `n`.
pub open spec fn integer_text(n: int) -> Text {
    if n < 0 {
        seq!['-'] + digits_text((-n) as nat)
    } else {
        digits_text(n as nat)
    }
}

/// The decimal digits of `n` stand for `n`.
pub proof fn lemma_digits_text(n: nat)
    ensures
        digits_text(n).len() >= 1,
        all_digits(digits_text(n)),
        digits_value(digits_text(n)) == n,
    decreases n,
{
    reveal_with_fuel(digits_value, 2);
    if n < 10 {
        assert(digits_text(n).drop_last() =~= seq![]);
    } else {
        lemma_digits_text(n / 10);
        assert(digits_text(n).drop_last() =~= digits_text(n / 10));
    }
}

/// `itoa::Buffer::format`: the decimal text of an integer.
#[verifier::external_body]
pub(crate) fn integer_to_text(n: i128) -> (r: String)
    ensures
        r@ == integer_text(n as int),
{
    itoa::Buffer::new().format(n).to_owned()
}

/// Whether `c` is a decimal digit.
pub fn char_is_digit(c: char) -> (r: bool)
    ensures
        r == is_digit(c),
{
    '0' <= c && c <= '9'
}

/// The number that the digits of `cs` between two positions stand for, up to a
/// limit.
pub fn digits_up_to(cs: &Vec<char>, from: usize, to: usize, limit: u128) -> (r: Option<u128>)
    requires
        from <= to <= cs@.len(),
        all_digits(cs@.subrange(from as int, to as int)),
        limit <= 0x10_0000_0000_0000_0000_0000_0000,
    ensures
        match r {
            Some(n) => n == digits_value(cs@.subrange(from as int, to as int)) && n <= limit,
            None => digits_value(cs@.subrange(from as int, to as int)) > limit,
        },
{
    let mut n: u128 = 0;
    let mut i: usize = from;
    let ghost whole = cs@.subrange(from as int, to as int);
    assert(cs@.subrange(from as int, from as int) =~= seq![]);
    while i < to
        invariant
            from <= i <= to <= cs@.len(),
            whole == cs@.subrange(from as int, to as int),
            all_digits(whole),
            n == digits_value(cs@.subrange(from as int, i as int)),
            n <= limit <= 0x10_0000_0000_0000_0000_0000_0000,
        decreases to - i,
    {
        let c: char = cs[i];
        assert(is_digit(whole[i - from]));
        let d: u128 = c as u128 - '0' as u128;
        let m: u128 = n * 10 + d;
        proof {
            let next = cs@.subrange(from as int, i + 1);
            assert(next.drop_last() =~= cs@.subrange(from as int, i as int));
            assert(m == digits_value(next));
        }
        if m > limit {
            proof {
                lemma_value_grows(whole, i + 1 - from);
                assert(whole.subrange(0, i + 1 - from) =~= cs@.subrange(from as int, i + 1));
            }
            return None;
        }
        n = m;
        i += 1;
    }
    Some(n)
}

/// More digits stand for a number at least as large.
pub proof fn lemma_value_grows(s: Text, k: int)
    requires
        0 <= k <= s.len(),
    ensures
        digits_value(s.subrange(0, k)) <= digits_value(s),
    decreases s.len(),
{
    if k == s.len() {
        assert(s.subrange(0, k) =~= s);
    } else {
        lemma_value_grows(s.drop_last(), k);
        assert(s.drop_last().subrange(0, k) =~= s.subrange(0, k));
    }
}

/// The first position at or after `i` that holds no digit.
pub open spec fn digits_end(s: Text, i: int) -> int
    decreases s.len() - i,
{
    if 0 <= i < s.len() && is_digit(s[i]) {
        digits_end(s, i + 1)
    } else {
        i
    }
}

/// What `digits_end` says, without recursion.
pub proof fn lemma_digits_end(s: Text, i: int)
    requires
        0 <= i <= s.len(),
    ensures
        i <= digits_end(s, i) <= s.len(),
        all_digits(s.subrange(i, digits_end(s, i))),
        digits_end(s, i) < s.len() ==> !is_digit(s[digits_end(s, i)]),
    decreases s.len() - i,
{
    if i < s.len() && is_digit(s[i]) {
        lemma_digits_end(s, i + 1);
        let e = digits_end(s, i + 1);
        let a = s.subrange(i, e);
        assert forall|j: int| 0 <= j < a.len() implies is_digit(#[trigger] a[j]) by {
            if j > 0 {
                assert(s.subrange(i + 1, e)[j - 1] == a[j]);
            }
        }
    }
}

/// Where the digits from `i` on end.
pub fn end_of_digits(cs: &Vec<char>, i: usize) -> (r: usize)
    requires
        i <= cs@.len(),
    ensures
        r == digits_end(cs@, i as int),
        i <= r <= cs@.len(),
{
    let mut e: usize = i;
    while e < cs.len() && char_is_digit(cs[e])
        invariant
            i <= e <= cs@.len(),
            digits_end(cs@, i as int) == digits_end(cs@, e as int),
        decreases cs@.len() - e,
    {
        e += 1;
    }
    e
}

// ---------------------------------------------------------------------------
// Lengths

/// The number that `t` stands for as a length: digits, with a plus sign before
/// them or none, for a number that fits.
pub open spec fn length_of(t: Text) -> Option<nat> {
    let d = if t.len() > 0 && t[0] == '+' {
        t.subrange(1, t.len() as int)
    } else {
        t
    };
    if d.len() > 0 && all_digits(d) && digits_value(d) <= usize::MAX {
        Some(digits_value(d))
    } else {
        None
    }
}

/// The number that `t` stands for as a length.
pub fn parse_length(t: &str) -> (r: Option<usize>)
    ensures
        match r {
            Some(n) => length_of(t@) == Some(n as nat),
            None => length_of(t@) is None,
        },
{
    let cs = chars_of(t);
    let n: usize = cs.len();
    let from: usize = if n > 0 && cs[0] == '+' {
        1
    } else {
        0
    };
    proof {
        assert(t@.subrange(0, n as int) =~= t@);
        lemma_digits_end(t@, from as int);
    }
    let e: usize = end_of_digits(&cs, from);
    if from == n || e < n {
        proof {
            if e < n {
                assert(!is_digit(t@.subrange(from as int, n as int)[e - from]));
            }
        }
        return None;
    }
    match digits_up_to(&cs, from, n, usize::MAX as u128) {
        Some(v) => Some(v as usize),
        None => None,
    }
}

// ---------------------------------------------------------------------------
// The decimal texts of numbers

/// The length of a sign at the start of `t`.
pub open spec fn sign_len(t: Text) -> int {
    if t.len() > 0 && (t[0] == '-' || t[0] == '+') {
        1
    } else {
        0
    }
}

/// The end of the digits before the point.
pub open spec fn whole_end(t: Text) -> int {
    digits_end(t, sign_len(t))
}

/// The end of the point and the digits behind it.
pub open spec fn fraction_end(t: Text) -> int {
    let b = whole_end(t);
    if b < t.len() && t[b] == '.' {
        digits_end(t, b + 1)
    } else {
        b
    }
}

/// The digits of the number, before and behind the point.
pub open spec fn mantissa(t: Text) -> Text {
    let b = whole_end(t);
    let e = fraction_end(t);
    t.subrange(sign_len(t), b) + (if e > b {
        t.subrange(b + 1, e)
    } else {
        seq![]
    })
}

/// The start of the digits of the exponent, where `t` has one.
pub open spec fn exponent_start(t: Text) -> Option<int> {
    let e = fraction_end(t);
    if e < t.len() && (t[e] == 'e' || t[e] == 'E') {
        if e + 1 < t.len() && (t[e + 1] == '-' || t[e + 1] == '+') {
            Some(e + 2)
        } else {
            Some(e + 1)
        }
    } else {
        None
    }
}

/// Whether `t` is a number in decimal notation: a sign or none, digits with
/// at most one point, an exponent or none.
pub open spec fn is_decimal(t: Text) -> bool {
    &&& mantissa(t).len() > 0
    &&& match exponent_start(t) {
        Some(x) => x < t.len() && digits_end(t, x) == t.len(),
        None => fraction_end(t) == t.len(),
    }
}

/// What a token that may be a number stands for.
pub enum Num {
    /// An integer of 64 bits.
    Whole(i64),
    /// Any other number, by the text of the float that is nearest to it.
    Decimal(Text),
    /// No number.
    Other,
}

/// The integer that `t` stands for: a sign or none and digits.
pub open spec fn integer_of(t: Text) -> Option<int> {
    let a = sign_len(t);
    if a < t.len() && whole_end(t) == t.len() {
        let n = digits_value(t.subrange(a, t.len() as int)) as int;
        if t[0] == '-' {
            Some(-n)
        } else {
            Some(n)
        }
    } else {
        None
    }
}

/// What the token `t` stands for as a number. An integer that does not fit in
/// 64 bits is a float.
pub open spec fn number_of(t: Text) -> Num {
    let a = sign_len(t);
    if a < t.len() && (is_digit(t[a]) || t[a] == '.') {
        match integer_of(t) {
            Some(n) if i64::MIN <= n <= i64::MAX => Num::Whole(n as i64),
            _ => if is_decimal(t) {
                Num::Decimal(rounded(t))
            } else {
                Num::Other
            },
        }
    } else {
        Num::Other
    }
}

/// What a token stands for as a number.
pub enum Parsed {
    Whole(i64),
    Decimal(Float),
    Other,
}

/// The bounds of the parts of a number.
pub proof fn lemma_parts(t: Text)
    ensures
        0 <= sign_len(t) <= whole_end(t) <= fraction_end(t) <= t.len(),
        exponent_start(t) matches Some(x) ==> fraction_end(t) < x <= t.len(),
{
    lemma_digits_end(t, sign_len(t));
    let b = whole_end(t);
    if b < t.len() && t[b] == '.' {
        lemma_digits_end(t, b + 1);
    }
}

/// Whether the characters are a number in decimal notation.
pub fn chars_are_decimal(cs: &Vec<char>) -> (r: bool)
    ensures
        r == is_decimal(cs@),
{
    let n: usize = cs.len();
    let (a, b, e) = bounds(cs);
    let behind: usize = if e > b {
        e - b - 1
    } else {
        0
    };
    if b == a && behind == 0 {
        return false;
    }
    if e < n && (cs[e] == 'e' || cs[e] == 'E') {
        let mut x: usize = e + 1;
        if x < n && (cs[x] == '-' || cs[x] == '+') {
            x += 1;
        }
        x < n && end_of_digits(cs, x) == n
    } else {
        e == n
    }
}

/// What the token stands for as a number.
pub fn parse_number(cs: &Vec<char>) -> (r: Parsed)
    ensures
        match r {
            Parsed::Whole(n) => number_of(cs@) == Num::Whole(n),
            Parsed::Decimal(f) => number_of(cs@) == Num::Decimal(f@),
            Parsed::Other => number_of(cs@) == Num::Other,
        },
{
    let n: usize = cs.len();
    let a: usize = if n > 0 && (cs[0] == '-' || cs[0] == '+') {
        1
    } else {
        0
    };
    if a >= n || !(char_is_digit(cs[a]) || cs[a] == '.') {
        return Parsed::Other;
    }
    let e: usize = end_of_digits(cs, a);
    if e == n {
        proof {
            lemma_digits_end(cs@, a as int);
        }
        let neg = cs[0] == '-';
        let limit: u128 = if neg {
            0x8000_0000_0000_0000
        } else {
            0x7fff_ffff_ffff_ffff
        };
        match digits_up_to(cs, a, n, limit) {
            Some(v) => {
                if neg {
                    return Parsed::Whole((0 - v as i128) as i64);
                }
                return Parsed::Whole(v as i64);
            },
            None => {},
        }
    }
    if chars_are_decimal(cs) {
        Parsed::Decimal(Float::nearest(cs))
    } else {
        Parsed::Other
    }
}

// ---------------------------------------------------------------------------
// The number that a decimal text stands for

/// `s` without the zeros that it begins with.
pub open spec fn without_leading_zeros(s: Text) -> Text
    decreases s.len(),
{
    if s.len() > 0 && s[0] == '0' {
        without_leading_zeros(s.subrange(1, s.len() as int))
    } else {
        s
    }
}

/// `s` without the zeros that it ends with.
pub open spec fn without_trailing_zeros(s: Text) -> Text
    decreases s.len(),
{
    if s.len() > 0 && s.last() == '0' {
        without_trailing_zeros(s.drop_last())
    } else {
        s
    }
}

/// A decimal number: `0.digits`, moved by `point` places to the left of the
/// point, with no zero at either end of its digits. Zero has no digits.
pub struct Decimal {
    pub neg: bool,
    pub digits: Text,
    pub point: int,
}

/// The exponent of `t`, where it is written with at most three digits.
pub open spec fn exponent_of(t: Text) -> Option<int> {
    match exponent_start(t) {
        None => Some(0),
        Some(x) => if t.len() - x > 3 {
            None
        } else if t[x - 1] == '-' {
            Some(-digits_value(t.subrange(x, t.len() as int)))
        } else {
            Some(digits_value(t.subrange(x, t.len() as int)) as int)
        },
    }
}

/// The exponent of `t`, where it has one, or else zero.
pub open spec fn exponent_value(t: Text) -> int {
    match exponent_start(t) {
        None => 0,
        Some(x) => if t[x - 1] == '-' {
            -digits_value(t.subrange(x, t.len() as int))
        } else {
            digits_value(t.subrange(x, t.len() as int)) as int
        },
    }
}

/// The number that the sign and the digits of `t` stand for with the exponent
/// `x`.
pub open spec fn decimal_at(t: Text, x: int) -> Decimal {
    let kept = without_leading_zeros(mantissa(t));
    let digits = without_trailing_zeros(kept);
    let point = if digits.len() == 0 {
        0
    } else {
        whole_end(t) - sign_len(t) - (mantissa(t).len() - kept.len()) + x
    };
    Decimal { neg: t[0] == '-', digits, point }
}

/// The number that `t` stands for, where it is one and its exponent has at most
/// three digits.
pub open spec fn decimal_of(t: Text) -> Option<Decimal> {
    match exponent_of(t) {
        Some(x) if is_decimal(t) => Some(decimal_at(t, x)),
        _ => None,
    }
}

/// A row of zeros.
pub open spec fn zeros(n: int) -> Text {
    Seq::new(if n > 0 { n as nat } else { 0 }, |i: int| '0')
}

/// The digits of a number with the point in its place and no exponent.
pub open spec fn positional(d: Decimal) -> Text {
    let n = d.digits.len() as int;
    if n == 0 {
        seq!['0']
    } else if d.point <= 0 {
        seq!['0', '.'] + zeros(-d.point) + d.digits
    } else if d.point >= n {
        d.digits + zeros(d.point - n)
    } else {
        d.digits.subrange(0, d.point) + seq!['.'] + d.digits.subrange(d.point, n)
    }
}

/// `t` written without an exponent and without needless zeros. A text that
/// stands for no number is left as it is.
pub open spec fn plain_text(t: Text) -> Text {
    match decimal_of(t) {
        Some(d) => (if d.neg {
            seq!['-']
        } else {
            seq![]
        }) + positional(d),
        None => t,
    }
}

/// `plain_text`, with a zero behind the point where the number is a whole one
/// of at most fifteen digits.
pub open spec fn shown_text(t: Text) -> Text {
    match decimal_of(t) {
        Some(d) if d.digits.len() <= d.point <= 15 || d.digits.len() == 0 => plain_text(t) + seq![
            '.',
            '0',
        ],
        _ => plain_text(t),
    }
}

/// Whether two texts stand for the same number. A text that stands for no
/// number is the same as itself, unless it says so of not being one.
pub open spec fn same_number(a: Text, b: Text) -> bool {
    match (decimal_of(a), decimal_of(b)) {
        (Some(x), Some(y)) => {
            &&& x.digits == y.digits
            &&& x.point == y.point
            &&& x.neg == y.neg || x.digits.len() == 0
        },
        _ => a == b && a != "NaN"@,
    }
}

/// A decimal number, in a form to compute with.
pub struct DecimalParts {
    pub neg: bool,
    pub digits: Vec<char>,
    pub point: i128,
}

impl View for DecimalParts {
    type V = Decimal;

    open spec fn view(&self) -> Decimal {
        Decimal { neg: self.neg, digits: self.digits@, point: self.point as int }
    }
}

/// The digits between two positions without the zeros at either end, and the
/// number of zeros that were dropped in front.
pub(crate) fn stripped(m: &Vec<char>) -> (r: (Vec<char>, usize))
    ensures
        r.0@ == without_trailing_zeros(without_leading_zeros(m@)),
        r.1 == m@.len() - without_leading_zeros(m@).len(),
        r.1 <= m@.len(),
{
    let n: usize = m.len();
    let mut a: usize = 0;
    assert(m@.subrange(0, n as int) =~= m@);
    while a < n && m[a] == '0'
        invariant
            a <= n == m@.len(),
            without_leading_zeros(m@) == without_leading_zeros(m@.subrange(a as int, n as int)),
        decreases n - a,
    {
        assert(m@.subrange(a as int, n as int).subrange(1, n - a) =~= m@.subrange(a + 1, n as int));
        a += 1;
    }
    let mut b: usize = n;
    let ghost kept = m@.subrange(a as int, n as int);
    while b > a && m[b - 1] == '0'
        invariant
            a <= b <= n == m@.len(),
            without_trailing_zeros(kept) == without_trailing_zeros(m@.subrange(a as int, b as int)),
        decreases b,
    {
        assert(m@.subrange(a as int, b as int).drop_last() =~= m@.subrange(a as int, b - 1));
        b -= 1;
    }
    let mut d: Vec<char> = Vec::new();
    let mut i: usize = a;
    while i < b
        invariant
            a <= i <= b <= n == m@.len(),
            d@ == m@.subrange(a as int, i as int),
        decreases b - i,
    {
        d.push(m[i]);
        i += 1;
    }
    (d, a)
}

/// Where the sign, the digits before the point and those behind it end.
pub(crate) fn bounds(cs: &Vec<char>) -> (r: (usize, usize, usize))
    ensures
        r.0 == sign_len(cs@),
        r.1 == whole_end(cs@),
        r.2 == fraction_end(cs@),
        r.0 <= r.1 <= r.2 <= cs@.len(),
{
    let n: usize = cs.len();
    let a: usize = if n > 0 && (cs[0] == '-' || cs[0] == '+') {
        1
    } else {
        0
    };
    let b: usize = end_of_digits(cs, a);
    let mut e: usize = b;
    if b < n && cs[b] == '.' {
        e = end_of_digits(cs, b + 1);
    }
    (a, b, e)
}

/// The exponent of a number in decimal notation.
fn parse_exponent(cs: &Vec<char>, e: usize) -> (r: Option<i128>)
    requires
        e == fraction_end(cs@),
        e <= cs@.len(),
        is_decimal(cs@),
    ensures
        match r {
            Some(x) => exponent_of(cs@) == Some(x as int) && -1000 < x < 1000,
            None => exponent_of(cs@) is None,
        },
{
    let n: usize = cs.len();
    if e < n && (cs[e] == 'e' || cs[e] == 'E') {
        let mut s: usize = e + 1;
        if s < n && (cs[s] == '-' || cs[s] == '+') {
            s += 1;
        }
        if n - s > 3 {
            return None;
        }
        proof {
            lemma_digits_end(cs@, s as int);
            lemma_small_value(cs@.subrange(s as int, n as int));
        }
        match digits_up_to(cs, s, n, 999) {
            Some(v) => if cs[s - 1] == '-' {
                Some(0 - v as i128)
            } else {
                Some(v as i128)
            },
            None => None,
        }
    } else {
        Some(0)
    }
}

/// The digits of a number, before and behind the point.
pub(crate) fn mantissa_digits(cs: &Vec<char>, a: usize, b: usize, e: usize) -> (r: Vec<char>)
    requires
        a == sign_len(cs@),
        b == whole_end(cs@),
        e == fraction_end(cs@),
        a <= b <= e <= cs@.len(),
    ensures
        r@ == mantissa(cs@),
{
    let mut m: Vec<char> = Vec::new();
    let mut i: usize = a;
    while i < b
        invariant
            a <= i <= b <= cs@.len(),
            m@ == cs@.subrange(a as int, i as int),
        decreases b - i,
    {
        m.push(cs[i]);
        i += 1;
    }
    if e > b {
        let ghost before = m@;
        i = b + 1;
        assert(m@ =~= before + cs@.subrange(b + 1, b + 1));
        while i < e
            invariant
                b + 1 <= i <= e <= cs@.len(),
                m@ == before + cs@.subrange(b + 1, i as int),
            decreases e - i,
        {
            m.push(cs[i]);
            i += 1;
        }
    }
    m
}

/// The number that the characters stand for.
pub fn parse_decimal(cs: &Vec<char>) -> (r: Option<DecimalParts>)
    ensures
        match r {
            Some(d) => decimal_of(cs@) == Some(d@) && -0x1_0000_0000_0000_0000_0000 < d.point
                < 0x1_0000_0000_0000_0000_0000,
            None => decimal_of(cs@) is None,
        },
{
    if !chars_are_decimal(cs) {
        return None;
    }
    let (a, b, e) = bounds(cs);
    match parse_exponent(cs, e) {
        None => None,
        Some(x) => {
            let m = mantissa_digits(cs, a, b, e);
            let (digits, lead) = stripped(&m);
            let point: i128 = if digits.len() == 0 {
                0
            } else {
                b as i128 - a as i128 - lead as i128 + x
            };
            Some(DecimalParts { neg: cs[0] == '-', digits, point })
        },
    }
}

/// Three digits stand for a number below a thousand.
proof fn lemma_small_value(s: Text)
    requires
        s.len() <= 3,
        all_digits(s),
    ensures
        digits_value(s) <= 999,
{
    reveal_with_fuel(digits_value, 4);
    if s.len() > 0 {
        assert(is_digit(s[s.len() - 1]));
        if s.len() > 1 {
            assert(is_digit(s[s.len() - 2]));
            if s.len() > 2 {
                assert(is_digit(s[s.len() - 3]));
            }
        }
    }
}

/// Appends a row of zeros.
pub(crate) fn push_zeros(out: &mut String, n: i128)
    ensures
        final(out)@ == old(out)@ + zeros(n as int),
{
    let mut i: i128 = 0;
    assert(out@ =~= old(out)@ + zeros(0));
    while i < n
        invariant
            0 <= i,
            i <= n || n < 0,
            n < 0 ==> i == 0,
            out@ == old(out)@ + zeros(i as int),
        decreases n - i,
    {
        out.push('0');
        assert(zeros(i + 1) =~= zeros(i as int).push('0'));
        i += 1;
    }
    assert(n <= 0 ==> zeros(n as int) =~= zeros(0));
}

/// Appends the characters between two positions.
pub(crate) fn push_part(out: &mut String, cs: &Vec<char>, from: usize, to: usize)
    requires
        from <= to <= cs@.len(),
    ensures
        final(out)@ == old(out)@ + cs@.subrange(from as int, to as int),
{
    let mut i: usize = from;
    assert(out@ =~= old(out)@ + cs@.subrange(from as int, from as int));
    while i < to
        invariant
            from <= i <= to <= cs@.len(),
            out@ == old(out)@ + cs@.subrange(from as int, i as int),
        decreases to - i,
    {
        out.push(cs[i]);
        i += 1;
    }
}

/// The number with the point in its place and no exponent.
fn positional_text(d: &DecimalParts) -> (r: String)
    requires
        -0x1_0000_0000_0000_0000_0000 < d.point < 0x1_0000_0000_0000_0000_0000,
    ensures
        r@ == (if d@.neg {
            seq!['-']
        } else {
            seq![]
        }) + positional(d@),
{
    let mut out: String = String::new();
    if d.neg {
        out.push('-');
    }
    let ghost sign = out@;
    let n: usize = d.digits.len();
    if n == 0 {
        out.push('0');
    } else if d.point <= 0 {
        out.push('0');
        out.push('.');
        push_zeros(&mut out, 0 - d.point);
        push_part(&mut out, &d.digits, 0, n);
    } else if d.point >= n as i128 {
        push_part(&mut out, &d.digits, 0, n);
        push_zeros(&mut out, d.point - n as i128);
    } else {
        let p: usize = d.point as usize;
        push_part(&mut out, &d.digits, 0, p);
        out.push('.');
        push_part(&mut out, &d.digits, p, n);
    }
    assert(d.digits@.subrange(0, n as int) =~= d.digits@);
    assert(out@ =~= sign + positional(d@));
    out
}

/// `t` written without an exponent and without needless zeros.
pub fn plain(t: &str) -> (r: String)
    ensures
        r@ == plain_text(t@),
{
    match parse_decimal(&chars_of(t)) {
        Some(d) => positional_text(&d),
        None => owned(t),
    }
}

/// `plain`, with a zero behind the point of a whole number that is not large.
pub fn shown(t: &str) -> (r: String)
    ensures
        r@ == shown_text(t@),
{
    match parse_decimal(&chars_of(t)) {
        Some(d) => {
            let mut out: String = positional_text(&d);
            let n: i128 = d.digits.len() as i128;
            if n == 0 || (n <= d.point && d.point <= 15) {
                out.push('.');
                out.push('0');
                assert(out@ =~= plain_text(t@) + seq!['.', '0']);
            }
            out
        },
        None => owned(t),
    }
}

/// Whether two texts stand for the same number.
pub fn numbers_equal(a: &str, b: &str) -> (r: bool)
    ensures
        r == same_number(a@, b@),
{
    let x = parse_decimal(&chars_of(a));
    let y = parse_decimal(&chars_of(b));
    match (x, y) {
        (Some(x), Some(y)) => {
            if x.digits.len() != y.digits.len() || x.point != y.point {
                return false;
            }
            let n: usize = x.digits.len();
            let mut i: usize = 0;
            while i < n
                invariant
                    i <= n == x.digits@.len() == y.digits@.len(),
                    forall|j: int| 0 <= j < i ==> x.digits@[j] == y.digits@[j],
                    decimal_of(a@) == Some(x@),
                    decimal_of(b@) == Some(y@),
                decreases n - i,
            {
                if x.digits[i] != y.digits[i] {
                    return false;
                }
                i += 1;
            }
            assert(x.digits@ =~= y.digits@);
            x.neg == y.neg || n == 0
        },
        _ => same_text(a, b) && !same_text(a, "NaN"),
    }
}

// ---------------------------------------------------------------------------
// Numbers in JSON

/// A number as JSON writes one: one digit before the point, some behind it, and
/// an exponent.
pub open spec fn json_form(d: Decimal) -> Text {
    (if d.neg {
        seq!['-']
    } else {
        seq![]
    }) + (if d.digits.len() == 0 {
        seq!['0', '.', '0']
    } else {
        seq![d.digits[0], '.'] + (if d.digits.len() == 1 {
            seq!['0']
        } else {
            d.digits.subrange(1, d.digits.len() as int)
        }) + seq!['e'] + integer_text(d.point - 1)
    })
}

/// A number as JSON writes one.
pub(crate) fn json_form_of(d: &DecimalParts) -> (r: String)
    requires
        -0x1_0000_0000_0000_0000_0000 < d.point < 0x1_0000_0000_0000_0000_0000,
    ensures
        r@ == json_form(d@),
{
    let mut out: String = String::new();
    if d.neg {
        out.push('-');
    }
    let ghost sign = out@;
    let n: usize = d.digits.len();
    if n == 0 {
        out.push('0');
        out.push('.');
        out.push('0');
        assert(out@ =~= sign + seq!['0', '.', '0']);
    } else {
        out.push(d.digits[0]);
        out.push('.');
        if n == 1 {
            out.push('0');
        } else {
            push_part(&mut out, &d.digits, 1, n);
        }
        out.push('e');
        let e = integer_to_text(d.point - 1);
        out.push_str(e.as_str());
        assert(out@ =~= sign + (seq![d@.digits[0], '.'] + (if n == 1 {
            seq!['0']
        } else {
            d@.digits.subrange(1, n as int)
        }) + seq!['e'] + integer_text(d@.point - 1)));
    }
    out
}

/// The number that `t` stands for as JSON writes one. A text that stands for no
/// number is left as it is.
pub open spec fn json_number_text(t: Text) -> Text {
    match decimal_of(t) {
        Some(d) => json_form(d),
        None => t,
    }
}

/// The number that `t` stands for as JSON writes one.
pub fn json_number_form(t: &str) -> (r: String)
    ensures
        r@ == json_number_text(t@),
{
    match parse_decimal(&chars_of(t)) {
        Some(d) => json_form_of(&d),
        None => owned(t),
    }
}

} // verus!
