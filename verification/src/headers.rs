//! Headers of arrays as they can be written by hand: lengths, delimiters, fields,
//! and the lines that a header takes.

use vstd::prelude::*;
use crate::decoder::{
    array_lines, bad, expanded_lines, field, good, is_item, item_head, item_text, later, row,
    table_lines,
};
use crate::forms::values_are_read_piece_by_piece;
use crate::lines::{
    array_header, fields_end, header_at, header_delimiter, header_length, key_names, Line,
};
use crate::number::{integer_text, is_digit, lemma_digits_text, length_of};
use crate::readback::{lemma_no_colon, lemma_trim_of_trim};
use crate::scan::{cell_end, has_colon, outside, pieces, step, Place};
use crate::schema_registry::Stores;
use crate::text::{find_from, is_space, lemma_find_at, lemma_find_from, trim, Text};
use crate::tokens::{delimited, inline_value, is_reference};
use crate::value::Val;

verus! {

// ---------------------------------------------------------------------------
// What a header says

/// The mark in the brackets that asks for the delimiter `d`.
pub open spec fn mark_of(d: char) -> Text {
    if d == ',' {
        seq![]
    } else {
        seq![d]
    }
}

/// Whether arrays can be delimited by `d`: commas, bars and tabs.
pub open spec fn is_delimiter(d: char) -> bool {
    d == ',' || d == '|' || d == '\t'
}

/// Whether `k` is a key that can stand before the brackets as it is.
pub open spec fn is_bare_key(k: Text) -> bool {
    &&& k.len() > 0 ==> !is_space(k[0]) && !is_space(k.last())
    &&& !k.contains('"') && !k.contains('[') && !k.contains(':')
}

/// A header without what stands behind the brackets.
pub open spec fn bracketed(k: Text, n: nat, d: char) -> Text {
    k + seq!['['] + integer_text(n as int) + mark_of(d) + seq![']']
}

/// What the text in the brackets asks for.
proof fn lemma_body(n: nat, d: char)
    requires
        is_delimiter(d),
        n <= usize::MAX,
    ensures
        ({
            let body = integer_text(n as int) + mark_of(d);
            &&& header_delimiter(body) == d
            &&& header_length(body) == n
            &&& !body.contains(']')
            &&& !body.contains(':')
        }),
{
    let digits = integer_text(n as int);
    let m = mark_of(d);
    let body = digits + m;
    lemma_digits_text(n);
    assert(is_digit(digits[0]));
    assert(is_digit(digits[digits.len() - 1]));
    assert(length_of(digits) == Some(n));
    if d == ',' {
        assert(body =~= digits);
    } else {
        assert(body.last() == d);
        assert(body.drop_last() =~= digits);
    }
    assert forall|j: int| 0 <= j < body.len() implies body[j] != ']' && body[j] != ':' by {
        if j < digits.len() {
            assert(body[j] == digits[j]);
            assert(is_digit(digits[j]));
        } else {
            assert(body[j] == m[j - digits.len()]);
        }
    }
}

/// Where the brackets stand.
#[verifier::rlimit(40)]
proof fn lemma_brackets(k: Text, body: Text, rest: Text, colon: int)
    requires
        !k.contains('"'),
        !k.contains('['),
        !k.contains(':'),
        !body.contains(']'),
        !body.contains(':'),
        0 <= colon < rest.len(),
        rest[colon] == ':',
    ensures
        ({
            let c = k + seq!['['] + body + seq![']'] + rest;
            let b = k.len() as int;
            let e = b + 1 + body.len();
            &&& array_header(c) == Some(header_at(c, b, e))
            &&& c.subrange(0, b) == k
            &&& c.subrange(b + 1, e) == body
            &&& c.subrange(e + 1, c.len() as int) == rest
        }),
{
    reveal(array_header);
    let c = k + seq!['['] + body + seq![']'] + rest;
    let b = k.len() as int;
    let e = b + 1 + body.len();
    assert(c[b] == '[');
    assert(c[e] == ']');
    assert(c[e + 1 + colon] == ':');
    assert forall|j: int| 0 <= j < b implies c[j] != '[' && c[j] != ':' && c[j] != '"' by {
        assert(c[j] == k[j]);
        assert(k.contains(k[j]));
    }
    assert forall|j: int| b < j < e implies c[j] != ']' && c[j] != ':' by {
        assert(c[j] == body[j - b - 1]);
        assert(body.contains(body[j - b - 1]));
    }
    lemma_find_at(c, '[', b);
    lemma_find_from(c, ':', 0);
    lemma_find_from(c, ']', b);
    assert(c.subrange(0, b) =~= k);
    assert(c.subrange(b + 1, e) =~= body);
    assert(c.subrange(e + 1, c.len() as int) =~= rest);
}

/// What stands in and before the brackets.
proof fn lemma_bracketed(k: Text, n: nat, d: char, rest: Text, colon: int)
    requires
        is_bare_key(k),
        is_delimiter(d),
        n <= usize::MAX,
        0 <= colon < rest.len(),
        rest[colon] == ':',
    ensures
        ({
            let c = bracketed(k, n, d) + rest;
            let b = k.len() as int;
            let e = bracketed(k, n, d).len() - 1;
            &&& array_header(c) == Some(header_at(c, b, e))
            &&& header_at(c, b, e).length == n
            &&& header_at(c, b, e).delimiter == d
            &&& header_at(c, b, e).key == (if k.len() == 0 {
                None
            } else {
                Some(k)
            })
            &&& c.subrange(e + 1, c.len() as int) == rest
            &&& b < e < c.len() - 1
        }),
{
    let c = bracketed(k, n, d) + rest;
    let b = k.len() as int;
    let e = bracketed(k, n, d).len() - 1;
    let body = integer_text(n as int) + mark_of(d);
    lemma_body(n, d);
    assert(c =~= k + seq!['['] + body + seq![']'] + rest);
    lemma_brackets(k, body, rest, colon);
    assert(e == b + 1 + body.len());
    if b > 0 {
        lemma_trim_of_trim(k);
        assert(k[0] != '"') by {
            assert(k.contains(k[0]));
        }
    }
}

/// A header with values behind it says its key, its length, the delimiter that
/// its mark asks for, and the values.
#[verifier::rlimit(40)]
pub proof fn a_header_tells_what_it_announces(k: Text, n: nat, d: char, x: Text)
    requires
        is_bare_key(k),
        is_delimiter(d),
        n <= usize::MAX,
        x.len() > 0,
        !is_space(x[0]),
        !is_space(x.last()),
    ensures
        array_header(bracketed(k, n, d) + seq![':', ' '] + x) matches Some(h) && {
            &&& h.key == (if k.len() == 0 {
                None
            } else {
                Some(k)
            })
            &&& h.length == n
            &&& h.delimiter == d
            &&& h.fields is None
            &&& h.inline == Some(x)
        },
        array_header(bracketed(k, n, d) + seq![':']) matches Some(h) && {
            &&& h.key == (if k.len() == 0 {
                None
            } else {
                Some(k)
            })
            &&& h.length == n
            &&& h.delimiter == d
            &&& h.fields is None
            &&& h.inline is None
        },
{
    let rest = seq![':', ' '] + x;
    let c = bracketed(k, n, d) + rest;
    let e = bracketed(k, n, d).len() - 1;
    assert(bracketed(k, n, d) + seq![':', ' '] + x =~= c);
    lemma_bracketed(k, n, d, rest, 0);
    lemma_find_from(c, ':', e + 1);
    assert(c[e + 1] == ':');
    assert(c.subrange(e + 2, c.len() as int) =~= seq![' '] + x);
    lemma_trim_of_trim(x);
    let c2 = bracketed(k, n, d) + seq![':'];
    lemma_bracketed(k, n, d, seq![':'], 0);
    lemma_find_from(c2, ':', e + 1);
    assert(c2[e + 1] == ':');
    assert(c2.subrange(e + 2, c2.len() as int) =~= seq![]);
    assert(trim(seq![]) =~= seq![]);
}

/// The end of fields without quotes and braces.
proof fn lemma_fields_close(inner: Text, rest: Text, i: int, p: Place)
    requires
        0 <= i <= inner.len(),
        !inner.contains('"'),
        !inner.contains('}'),
        !p.skip,
        !p.quoted,
    ensures
        cell_end(inner + seq!['}'] + rest, '}', i, p) == inner.len(),
    decreases inner.len() - i,
{
    let s = inner + seq!['}'] + rest;
    if i < inner.len() {
        assert(s[i] == inner[i]);
        assert(inner.contains(inner[i]));
        lemma_fields_close(inner, rest, i + 1, step(p, s[i]));
    } else {
        assert(s[i] == '}');
    }
}

/// A header with fields in braces says them: what stands between its delimiters.
pub proof fn a_header_tells_its_fields(k: Text, n: nat, d: char, inner: Text)
    requires
        is_bare_key(k),
        is_delimiter(d),
        n <= usize::MAX,
        !inner.contains('"'),
        !inner.contains('}'),
        !inner.contains(':'),
    ensures
        array_header(bracketed(k, n, d) + seq!['{'] + inner + seq!['}', ':']) matches Some(h) && {
            &&& h.key == (if k.len() == 0 {
                None
            } else {
                Some(k)
            })
            &&& h.length == n
            &&& h.delimiter == d
            &&& h.fields == Some(key_names(pieces(inner, d)))
            &&& h.inline is None
        },
{
    let rest = seq!['{'] + inner + seq!['}', ':'];
    let c = bracketed(k, n, d) + rest;
    let e = bracketed(k, n, d).len() - 1;
    assert(bracketed(k, n, d) + seq!['{'] + inner + seq!['}', ':'] =~= c);
    lemma_bracketed(k, n, d, rest, inner.len() as int + 2);
    let tail = rest.subrange(1, rest.len() as int);
    assert(tail =~= inner + seq!['}'] + seq![':']);
    lemma_fields_close(inner, seq![':'], 0, outside());
    assert(cell_end(tail, '}', 0, outside()) == inner.len());
    assert(fields_end(rest) == Some(inner.len() as int + 1));
    assert(rest.subrange(1, inner.len() as int + 1) =~= inner);
    let from = e + 1 + inner.len() as int + 2;
    assert(c[from] == ':');
    lemma_find_from(c, ':', from);
    assert(find_from(c, ':', from) == Some(from));
    assert(c.subrange(from + 1, c.len() as int) =~= seq![]);
    assert(trim(seq![]) =~= seq![]);
}

/// Values behind a header are read between the delimiters that its mark asks for.
pub proof fn values_behind_a_header_are_read(
    s: Stores,
    open: Seq<Text>,
    ls: Seq<Line>,
    base: int,
    i: int,
    k: Text,
    n: nat,
    d: char,
    x: Text,
)
    requires
        0 <= i < ls.len(),
        ls[i].text == bracketed(k, n, d) + seq![':', ' '] + x,
        k.len() > 0,
        is_bare_key(k),
        is_delimiter(d),
        0 < n <= usize::MAX,
        x.len() > 0,
        !is_space(x[0]),
        !is_space(x.last()),
    ensures
        ({
            let (a, left) = delimited(s, open, x, d, 0, seq![]);
            field(s, open, ls, base, i) == good((Some((k, Val::Array(a))), i + 1), left)
        }),
{
    a_header_tells_what_it_announces(k, n, d, x);
    let h = array_header(ls[i].text)->0;
    let (a, left) = delimited(s, open, x, d, 0, seq![]);
    assert(array_lines(s, open, ls, i, base, h) == good((Val::Array(a), i + 1), left));
}

// ---------------------------------------------------------------------------
// The lines that a header takes

/// How many rows a table takes.
pub open spec fn fewer(n: nat, m: nat) -> nat {
    if n < m {
        n
    } else {
        m
    }
}

/// Whether no piece of a text is a reference.
pub open spec fn names_nothing(x: Text, d: char) -> bool {
    forall|j: int| 0 <= j < pieces(x, d).len() ==> !is_reference(trim(#[trigger] pieces(x, d)[j]))
}

/// The rows from some line on.
#[verifier::rlimit(40)]
proof fn lemma_rows_taken(
    s: Stores,
    open: Seq<Text>,
    ls: Seq<Line>,
    depth: int,
    n: nat,
    fields: Seq<Text>,
    d: char,
    i: int,
    m: nat,
    j: int,
    done: Seq<Val>,
)
    requires
        0 <= i <= j <= i + m <= ls.len(),
        done.len() == j - i,
        done.len() <= n,
        forall|h: int| i <= h < i + m ==> (#[trigger] ls[h]).depth == depth && names_nothing(
            ls[h].text,
            d,
        ),
        i + m < ls.len() ==> ls[i + m].depth != depth,
        forall|h: int|
            0 <= h < done.len() ==> #[trigger] done[h] == Val::Object(
                row(fields, delimited(s, open, ls[i + h].text, d, 0, seq![]).0, 0, seq![]),
            ),
    ensures
        ({
            let r = table_lines(s, open, ls, depth, n, fields, d, j, done);
            &&& r.0.len() == fewer(n, m)
            &&& r.1 == i + fewer(n, m)
            &&& forall|h: int|
                0 <= h < r.0.len() ==> #[trigger] r.0[h] == Val::Object(
                    row(fields, delimited(s, open, ls[i + h].text, d, 0, seq![]).0, 0, seq![]),
                )
        }),
    decreases i + m - j,
{
    if j < i + m && done.len() < n {
        let t = ls[j].text;
        values_are_read_piece_by_piece(s, open, t, d);
        let (values, left) = delimited(s, open, t, d, 0, seq![]);
        assert(left == open);
        let next = done.push(Val::Object(row(fields, values, 0, seq![])));
        assert(ls[i + (j - i)] == ls[j]);
        lemma_rows_taken(s, open, ls, depth, n, fields, d, i, m, j + 1, next);
    }
}

/// A table takes one row from each line at its depth, as many as its header says
/// and no more: fewer where other lines come before.
pub proof fn a_table_takes_a_row_from_each_line(
    s: Stores,
    open: Seq<Text>,
    ls: Seq<Line>,
    depth: int,
    n: nat,
    fields: Seq<Text>,
    d: char,
    i: int,
    m: nat,
)
    requires
        0 <= i,
        i + m <= ls.len(),
        forall|h: int| i <= h < i + m ==> (#[trigger] ls[h]).depth == depth && names_nothing(
            ls[h].text,
            d,
        ),
        i + m < ls.len() ==> ls[i + m].depth != depth,
    ensures
        ({
            let r = table_lines(s, open, ls, depth, n, fields, d, i, seq![]);
            &&& r.0.len() == (if n < m {
                n
            } else {
                m
            })
            &&& r.1 == i + r.0.len()
            &&& forall|h: int|
                0 <= h < r.0.len() ==> #[trigger] r.0[h] == Val::Object(
                    row(fields, delimited(s, open, ls[i + h].text, d, 0, seq![]).0, 0, seq![]),
                )
        }),
{
    lemma_rows_taken(s, open, ls, depth, n, fields, d, i, m, i, seq![]);
}
/// Whether a line is a list item that says a value on one line, without a colon,
/// and refers to nothing that is being resolved.
pub open spec fn says_a_value(s: Stores, open: Seq<Text>, t: Text) -> bool {
    &&& t.len() >= 2 && t[0] == '-' && t[1] == ' '
    &&& !has_colon(t.subrange(2, t.len() as int))
    &&& inline_value(s, open, t.subrange(2, t.len() as int)).1 == open
}

/// The items from some line on.
#[verifier::rlimit(40)]
proof fn lemma_items_taken(
    s: Stores,
    open: Seq<Text>,
    ls: Seq<Line>,
    base: int,
    n: nat,
    i: int,
    m: nat,
    j: int,
    done: Seq<Val>,
)
    requires
        0 <= i <= j <= i + m <= ls.len(),
        done.len() == j - i,
        done.len() <= n,
        forall|h: int| i <= h < i + m ==> (#[trigger] ls[h]).depth == base + 1 && says_a_value(
            s,
            open,
            ls[h].text,
        ),
        i + m < ls.len() ==> ls[i + m].depth != base + 1,
        forall|h: int|
            0 <= h < done.len() ==> #[trigger] done[h] == inline_value(
                s,
                open,
                ls[i + h].text.subrange(2, ls[i + h].text.len() as int),
            ).0,
    ensures
        ({
            let a = Seq::new(
                fewer(n, m),
                |h: int|
                    inline_value(
                        s,
                        open,
                        ls[i + h].text.subrange(2, ls[i + h].text.len() as int),
                    ).0,
            );
            expanded_lines(s, open, ls, base, n, j, done) == good((a, i + fewer(n, m)), open)
        }),
    decreases i + m - j,
{
    if j < i + m && done.len() < n {
        let t = ls[j].text;
        reveal_strlit("- ");
        assert(t.subrange(0, 2) =~= "- "@);
        let item = item_text(t);
        lemma_no_colon(item);
        let v = inline_value(s, open, item).0;
        assert(ls[i + (j - i)] == ls[j]);
        lemma_items_taken(s, open, ls, base, n, i, m, j + 1, done.push(v));
    } else {
        let a = Seq::new(
            fewer(n, m),
            |h: int|
                inline_value(
                    s,
                    open,
                    ls[i + h].text.subrange(2, ls[i + h].text.len() as int),
                ).0,
        );
        assert(done =~= a);
        assert(expanded_lines(s, open, ls, base, n, j, done) == good((done, j), open));
    }
}

/// A list takes one item from each line at its depth that is one, as many as its
/// header says and no more: fewer where other lines come before.
pub proof fn a_list_takes_an_item_from_each_line(
    s: Stores,
    open: Seq<Text>,
    ls: Seq<Line>,
    base: int,
    n: nat,
    i: int,
    m: nat,
)
    requires
        0 <= i,
        i + m <= ls.len(),
        forall|h: int| i <= h < i + m ==> (#[trigger] ls[h]).depth == base + 1 && says_a_value(
            s,
            open,
            ls[h].text,
        ),
        i + m < ls.len() ==> ls[i + m].depth != base + 1,
    ensures
        ({
            let count = if n < m {
                n
            } else {
                m
            };
            let a = Seq::new(
                count,
                |h: int|
                    inline_value(
                        s,
                        open,
                        ls[i + h].text.subrange(2, ls[i + h].text.len() as int),
                    ).0,
            );
            expanded_lines(s, open, ls, base, n, i, seq![]) == good((a, i + count), open)
        }),
{
    lemma_items_taken(s, open, ls, base, n, i, m, i, seq![]);
}
// ---------------------------------------------------------------------------
// Headers in list items

/// What an item with a header says.
proof fn lemma_item_header(t: Text, k: Text, n: nat, d: char)
    requires
        t == seq!['-', ' '] + bracketed(k, n, d) + seq![':'],
    ensures
        item_text(t) == bracketed(k, n, d) + seq![':'],
        is_item(t),
{
    reveal_strlit("- ");
    assert(item_text(t) =~= bracketed(k, n, d) + seq![':']);
    assert(t.subrange(0, 2) =~= "- "@);
}

/// What an array holds that a list item begins with stands one level below the
/// dash, or two, where the first line of it does.
pub proof fn an_item_takes_an_array_one_or_two_levels_below(
    s: Stores,
    open: Seq<Text>,
    ls: Seq<Line>,
    base: int,
    i: int,
    k: Text,
    n: nat,
    d: char,
    deep: int,
)
    requires
        0 <= i,
        i + 1 < ls.len(),
        k.len() > 0,
        is_bare_key(k),
        is_delimiter(d),
        n <= usize::MAX,
        ls[i].text == seq!['-', ' '] + bracketed(k, n, d) + seq![':'],
        deep == 1 || deep == 2,
        ls[i + 1].depth == base + 1 + deep,
    ensures
        ({
            let h = array_header(bracketed(k, n, d) + seq![':'])->0;
            let t = array_lines(s, open, ls, i, base + deep, h);
            item_head(s, open, ls, i, base) == match t.result {
                Ok((v, next)) => good((seq![(k, v)], next), t.open),
                Err(m) => bad(m, t.open),
            }
        }),
{
    lemma_item_header(ls[i].text, k, n, d);
    a_header_tells_what_it_announces(k, n, d, seq!['x']);
}

/// What an array holds that is a list item itself stands one level below the dash,
/// or two, where the first line of it does.
#[verifier::rlimit(40)]
pub proof fn a_nested_array_stands_one_or_two_levels_below(
    s: Stores,
    open: Seq<Text>,
    ls: Seq<Line>,
    base: int,
    most: nat,
    j: int,
    done: Seq<Val>,
    n: nat,
    d: char,
    deep: int,
)
    requires
        0 <= j,
        j + 1 < ls.len(),
        is_delimiter(d),
        n <= usize::MAX,
        done.len() < most,
        ls[j].depth == base + 1,
        ls[j].text == seq!['-', ' '] + bracketed(seq![], n, d) + seq![':'],
        deep == 1 || deep == 2,
        ls[j + 1].depth == base + 1 + deep,
    ensures
        ({
            let h = array_header(bracketed(seq![], n, d) + seq![':'])->0;
            let t = array_lines(s, open, ls, j, base + deep, h);
            match t.result {
                Ok((v, next)) => next > j ==> expanded_lines(s, open, ls, base, most, j, done)
                    == expanded_lines(s, t.open, ls, base, most, next, done.push(v)),
                Err(m) => expanded_lines(s, open, ls, base, most, j, done) == bad::<
                    (Seq<Val>, int),
                >(m, t.open),
            }
        }),
{
    let none = Seq::<char>::empty();
    lemma_item_header(ls[j].text, none, n, d);
    a_header_tells_what_it_announces(none, n, d, seq!['x']);
    let h = array_header(bracketed(none, n, d) + seq![':'])->0;
    let t = array_lines(s, open, ls, j, base + deep, h);
    if let Ok((v, next)) = t.result {
        if next > j {
            assert(later(j, next) == next);
            assert(expanded_lines(s, open, ls, base, most, j, done) == expanded_lines(
                s,
                t.open,
                ls,
                base,
                most,
                next,
                done.push(v),
            ));
        }
    }
}

} // verus!
