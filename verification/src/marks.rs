//! Where a line is cut: quotes, braces and brackets, and what stands inside
//! them.

use vstd::prelude::*;
use crate::readback::lemma_quote_close_escape;
use crate::scan::{
    brace_content, brace_span, bracket_close, cut_pieces, escape, escaped, key_colon,
    lemma_first_mark, lemma_quote_close, open_colon, outside, piece_end, pieces, quote_close, step,
    unescape, Place,
};
use crate::text::Text;

verus! {

// ---------------------------------------------------------------------------
// Places

/// Where a reader that stands at `p` is once it has read `t`.
pub open spec fn after(p: Place, t: Text) -> Place
    decreases t.len(),
{
    if t.len() == 0 {
        p
    } else {
        step(after(p, t.drop_last()), t.last())
    }
}

/// Where a reader of `s` is once it has read its first `n` characters.
pub open spec fn place_at(s: Text, n: int) -> Place {
    after(outside(), s.subrange(0, n))
}

/// How often `c` stands among the first `n` characters of `s`.
pub open spec fn times(s: Text, n: int, c: char) -> nat {
    s.subrange(0, n).to_multiset().count(c)
}

/// Whether the position `n` of `s` stands outside of quotes.
pub open spec fn is_bare(s: Text, n: int) -> bool {
    !place_at(s, n).quoted && !place_at(s, n).skip
}

/// Whether the position `n` of `s` stands outside of quotes, braces and brackets.
pub open spec fn is_open(s: Text, n: int) -> bool {
    is_bare(s, n) && place_at(s, n).brace == 0 && place_at(s, n).bracket == 0
}

/// One character more.
pub proof fn lemma_place_step(s: Text, n: int)
    requires
        0 <= n < s.len(),
    ensures
        place_at(s, n + 1) == step(place_at(s, n), s[n]),
{
    let t = s.subrange(0, n + 1);
    assert(t.drop_last() =~= s.subrange(0, n));
    assert(t.last() == s[n]);
}

/// At the start.
pub proof fn lemma_place_start(s: Text)
    ensures
        place_at(s, 0) == outside(),
{
    assert(s.subrange(0, 0).len() == 0);
}

/// One text behind another.
proof fn lemma_after_both(p: Place, a: Text, b: Text)
    ensures
        after(p, a + b) == after(after(p, a), b),
    decreases b.len(),
{
    if b.len() == 0 {
        assert(a + b =~= a);
    } else {
        lemma_after_both(p, a, b.drop_last());
        assert((a + b).drop_last() =~= a + b.drop_last());
    }
}

/// One character.
proof fn lemma_after_one(p: Place, c: char)
    ensures
        after(p, seq![c]) == step(p, c),
{
    let t = seq![c];
    assert(t.drop_last().len() == 0);
    assert(after(p, t.drop_last()) == p);
    assert(t.last() == c);
}

/// In a text without quotes a reader is as deep inside braces as more of them
/// have opened than closed, and as deep inside brackets.
pub proof fn without_quotes_depth_is_counted(s: Text, n: int)
    requires
        0 <= n <= s.len(),
        forall|i: int| 0 <= i < n ==> #[trigger] s[i] != '"',
    ensures
        is_bare(s, n),
        place_at(s, n).brace == times(s, n, '{') - times(s, n, '}'),
        place_at(s, n).bracket == times(s, n, '[') - times(s, n, ']'),
    decreases n,
{
    broadcast use vstd::seq_lib::group_to_multiset_ensures;

    if n == 0 {
        lemma_place_start(s);
        assert(s.subrange(0, 0) =~= seq![]);
    } else {
        without_quotes_depth_is_counted(s, n - 1);
        lemma_place_step(s, n - 1);
        assert(s.subrange(0, n) =~= s.subrange(0, n - 1).push(s[n - 1]));
    }
}

/// What is written inside quotes leaves a reader inside them.
proof fn lemma_inside(q: Place, x: Text)
    requires
        q.quoted,
        !q.skip,
    ensures
        after(q, escape(x)) == q,
    decreases x.len(),
{
    if x.len() > 0 {
        let e = escaped(x[0]);
        let rest = x.subrange(1, x.len() as int);
        lemma_inside(q, rest);
        lemma_after_both(q, e, escape(rest));
        if e.len() == 1 {
            assert(e =~= seq![e[0]]);
            lemma_after_one(q, e[0]);
        } else {
            assert(e =~= seq![e[0]] + seq![e[1]]);
            lemma_after_both(q, seq![e[0]], seq![e[1]]);
            lemma_after_one(q, e[0]);
            lemma_after_one(step(q, e[0]), e[1]);
        }
    }
}

/// What stands in quotes counts for nothing: behind it a reader is where it was
/// before the quotes.
pub proof fn what_is_quoted_counts_for_nothing(a: Text, x: Text)
    requires
        is_bare(a, a.len() as int),
    ensures
        ({
            let t = a + seq!['"'] + escape(x) + seq!['"'];
            place_at(t, t.len() as int) == place_at(a, a.len() as int)
        }),
{
    let t = a + seq!['"'] + escape(x) + seq!['"'];
    let p = after(outside(), a);
    let q = step(p, '"');
    assert(a.subrange(0, a.len() as int) =~= a);
    assert(t.subrange(0, t.len() as int) =~= t);
    lemma_after_both(outside(), a + seq!['"'] + escape(x), seq!['"']);
    lemma_after_both(outside(), a + seq!['"'], escape(x));
    lemma_after_both(outside(), a, seq!['"']);
    lemma_after_one(p, '"');
    lemma_inside(q, x);
    lemma_after_one(q, '"');
}

// ---------------------------------------------------------------------------
// Pieces

/// Whether `c` opens or closes something, or escapes.
pub open spec fn is_mark(c: char) -> bool {
    c == '"' || c == '\\' || c == '{' || c == '}' || c == '[' || c == ']'
}

/// Whether the position `k` of `s` holds `d` outside of quotes, braces and
/// brackets.
pub open spec fn cuts(s: Text, d: char, k: int) -> bool {
    0 <= k < s.len() && s[k] == d && is_open(s, k)
}

/// Where the first piece ends.
proof fn lemma_first_cut(s: Text, d: char, i: int, e: int)
    requires
        !is_mark(d),
        0 <= i <= e <= s.len(),
        e < s.len() ==> cuts(s, d, e),
        forall|k: int| 0 <= k < e ==> !#[trigger] cuts(s, d, k),
    ensures
        piece_end(s, d, i, place_at(s, i)) == e,
    decreases e - i,
{
    if i < s.len() {
        lemma_place_step(s, i);
        if i < e {
            assert(!cuts(s, d, i));
            lemma_first_cut(s, d, i + 1, e);
        } else {
            assert(cuts(s, d, e));
        }
    }
}

/// A text is cut at each delimiter outside of quotes, braces and brackets, and
/// nowhere else: what stands before the first one is the first piece, and the
/// others are those of what stands behind it. Behind a delimiter at the end
/// stands an empty piece.
pub proof fn pieces_stand_between_delimiters(a: Text, b: Text, d: char)
    requires
        !is_mark(d),
        is_open(a, a.len() as int),
        forall|k: int| 0 <= k < a.len() ==> !#[trigger] cuts(a, d, k),
    ensures
        pieces(a + seq![d] + b, d) == seq![a] + (if b.len() == 0 {
            seq![seq![]]
        } else {
            pieces(b, d)
        }),
{
    let s = a + seq![d] + b;
    let e = a.len() as int;
    assert forall|k: int| 0 <= k <= e implies #[trigger] s.subrange(0, k) == a.subrange(0, k) by {
        assert(s.subrange(0, k) =~= a.subrange(0, k));
    }
    assert(cuts(s, d, e)) by {
        assert(s.subrange(0, e) == a.subrange(0, e));
    }
    assert forall|k: int| 0 <= k < e implies !#[trigger] cuts(s, d, k) by {
        assert(s.subrange(0, k) == a.subrange(0, k));
        assert(!cuts(a, d, k));
    }
    lemma_place_start(s);
    lemma_first_cut(s, d, 0, e);
    assert(s.subrange(0, e) =~= a);
    assert(s.subrange(e + 1, s.len() as int) =~= b);
    if b.len() == 0 {
        assert(piece_end(b, d, 0, outside()) == 0);
        assert(cut_pieces(b, d) == seq![b]);
        assert(b =~= seq![]);
    }
}

/// A text without a delimiter outside of quotes, braces and brackets is one piece.
pub proof fn without_delimiters_there_is_one_piece(s: Text, d: char)
    requires
        !is_mark(d),
        s.len() > 0,
        forall|k: int| 0 <= k < s.len() ==> !#[trigger] cuts(s, d, k),
    ensures
        pieces(s, d) == seq![s],
{
    lemma_place_start(s);
    lemma_first_cut(s, d, 0, s.len() as int);
}

// ---------------------------------------------------------------------------
// Closing brackets and braces

/// Whether the position `k` of `s` holds a bracket that closes the outermost one.
pub open spec fn closes_bracket(s: Text, k: int) -> bool {
    0 <= k < s.len() && s[k] == ']' && is_bare(s, k) && place_at(s, k).bracket == 1
}

/// The bracket from some position on.
proof fn lemma_bracket_from(s: Text, i: int, e: int)
    requires
        0 <= i <= e <= s.len(),
        e < s.len() ==> closes_bracket(s, e),
        forall|k: int| 0 <= k < e ==> !#[trigger] closes_bracket(s, k),
    ensures
        bracket_close(s, i, place_at(s, i)) == (if e < s.len() {
            Some(e)
        } else {
            None
        }),
    decreases e - i,
{
    if i < s.len() {
        lemma_place_step(s, i);
        if i < e {
            assert(!closes_bracket(s, i));
            lemma_bracket_from(s, i + 1, e);
        } else {
            assert(closes_bracket(s, e));
        }
    }
}

/// The bracket that is found is the first one outside of quotes that closes the
/// outermost bracket; where there is no such bracket, none is found.
pub proof fn the_bracket_that_closes_is_found(s: Text, e: int)
    requires
        0 <= e <= s.len(),
        e < s.len() ==> closes_bracket(s, e),
        forall|k: int| 0 <= k < e ==> !#[trigger] closes_bracket(s, k),
    ensures
        bracket_close(s, 0, outside()) == (if e < s.len() {
            Some(e)
        } else {
            None
        }),
{
    lemma_place_start(s);
    lemma_bracket_from(s, 0, e);
}

/// Whether the position `k` of `s` holds a brace that closes the outermost one.
pub open spec fn closes_brace(s: Text, k: int) -> bool {
    0 <= k < s.len() && s[k] == '}' && is_bare(s, k) && place_at(s, k).brace == 1
}

/// Whether the position `k` of `s` holds a brace that opens outside of braces.
pub open spec fn opens_brace(s: Text, k: int) -> bool {
    0 <= k < s.len() && s[k] == '{' && is_bare(s, k) && place_at(s, k).brace == 0
}

/// The braces from some position on.
proof fn lemma_braces_from(s: Text, i: int, b: int, e: int, open: int)
    requires
        0 <= i <= e < s.len(),
        closes_brace(s, e),
        opens_brace(s, b),
        b < e,
        i <= b || open == b,
        forall|k: int| 0 <= k < e ==> !#[trigger] closes_brace(s, k),
        forall|k: int| b < k < e ==> !#[trigger] opens_brace(s, k),
    ensures
        brace_span(s, i, place_at(s, i), open) == Some((b, e)),
    decreases e - i,
{
    lemma_place_step(s, i);
    if i < e {
        assert(!closes_brace(s, i));
        if i > b {
            assert(!opens_brace(s, i));
        }
        lemma_braces_from(s, i + 1, b, e, if opens_brace(s, i) {
            i
        } else {
            open
        });
    }
}

/// No braces from some position on.
proof fn lemma_no_braces_from(s: Text, i: int, open: int)
    requires
        0 <= i <= s.len(),
        forall|k: int| 0 <= k < s.len() ==> !#[trigger] closes_brace(s, k),
    ensures
        brace_span(s, i, place_at(s, i), open) is None,
    decreases s.len() - i,
{
    if i < s.len() {
        lemma_place_step(s, i);
        assert(!closes_brace(s, i));
        lemma_no_braces_from(s, i + 1, if opens_brace(s, i) {
            i
        } else {
            open
        });
    }
}

/// What stands in braces is what stands between the first brace that closes the
/// outermost one and the last one before it that opens outside of braces.
pub proof fn the_braces_that_match_are_found(s: Text, b: int, e: int)
    requires
        closes_brace(s, e),
        opens_brace(s, b),
        b < e,
        forall|k: int| 0 <= k < e ==> !#[trigger] closes_brace(s, k),
        forall|k: int| b < k < e ==> !#[trigger] opens_brace(s, k),
    ensures
        brace_content(s) == Some(s.subrange(b + 1, e)),
{
    lemma_place_start(s);
    lemma_braces_from(s, 0, b, e, 0);
}

/// Without a brace that closes the outermost one nothing stands in braces.
pub proof fn without_braces_there_is_no_content(s: Text)
    requires
        forall|k: int| 0 <= k < s.len() ==> !#[trigger] closes_brace(s, k),
    ensures
        brace_content(s) is None,
{
    lemma_place_start(s);
    lemma_no_braces_from(s, 0, 0);
}
// ---------------------------------------------------------------------------
// The colon behind a key

/// Whether the position `k` of `s` holds a colon outside of quotes and braces.
pub open spec fn ends_key(s: Text, k: int) -> bool {
    0 <= k < s.len() && s[k] == ':' && is_bare(s, k) && place_at(s, k).brace == 0
}

/// The colon from some position on.
proof fn lemma_colon_from(s: Text, i: int, e: int)
    requires
        0 <= i <= e <= s.len(),
        e < s.len() ==> ends_key(s, e),
        forall|k: int| 0 <= k < e ==> !#[trigger] ends_key(s, k),
    ensures
        open_colon(s, i, place_at(s, i)) == (if e < s.len() {
            Some(e)
        } else {
            None
        }),
    decreases e - i,
{
    if i < s.len() {
        lemma_place_step(s, i);
        if i < e {
            assert(!ends_key(s, i));
            lemma_colon_from(s, i + 1, e);
        } else {
            assert(ends_key(s, e));
        }
    }
}

/// A key ends at the first colon, where no quote and no opening brace stands
/// before it.
pub proof fn a_plain_key_ends_at_the_first_colon(a: Text, b: Text)
    requires
        !a.contains(':'),
        !a.contains('"'),
        !a.contains('{'),
    ensures
        key_colon(a + seq![':'] + b) == Some(a.len() as int),
        key_colon(a) is None,
{
    let s = a + seq![':'] + b;
    lemma_first_mark(s, 0);
    lemma_first_mark(a, 0);
    assert(s[a.len() as int] == ':');
    assert forall|j: int| 0 <= j < a.len() implies s[j] != ':' && s[j] != '"' && s[j] != '{' by {
        assert(s[j] == a[j]);
    }
}

/// A key before whose first colon a quote or an opening brace stands ends at the
/// first colon outside of quotes and braces; where there is none, there is no key.
pub proof fn a_key_with_marks_ends_at_the_first_open_colon(s: Text, j: int, e: int)
    requires
        0 <= j < s.len(),
        s[j] == '"' || s[j] == '{',
        forall|k: int| 0 <= k < j ==> #[trigger] s[k] != ':',
        0 <= e <= s.len(),
        e < s.len() ==> ends_key(s, e),
        forall|k: int| 0 <= k < e ==> !#[trigger] ends_key(s, k),
    ensures
        key_colon(s) == (if e < s.len() {
            Some(e)
        } else {
            None
        }),
{
    lemma_first_mark(s, 0);
    lemma_place_start(s);
    lemma_colon_from(s, 0, e);
}

// ---------------------------------------------------------------------------
// Closing quotes

/// The quote that closes is the one behind what is written inside the quotes,
/// whatever that is.
pub proof fn the_quote_that_closes_is_found(a: Text, x: Text, b: Text)
    ensures
        quote_close(a + escape(x) + seq!['"'] + b, a.len() as int) == Some(
            (a.len() + escape(x).len()) as int,
        ),
{
    lemma_quote_close_escape(a, x, b);
}

/// Without a quote there is none that closes.
pub proof fn without_quotes_none_closes(s: Text, i: int)
    requires
        0 <= i,
        forall|k: int| i <= k < s.len() ==> #[trigger] s[k] != '"',
    ensures
        quote_close(s, i) is None,
{
    lemma_quote_close(s, i);
}
// ---------------------------------------------------------------------------
// Escapes

/// A backslash with one of the characters that have a short form stands for what
/// that form is of; with any other character both stay.
pub proof fn escapes_stand_for_one_character(c: char, t: Text)
    ensures
        unescape(seq!['\\', c] + t) == (if c == '\\' {
            seq!['\\']
        } else if c == '"' {
            seq!['"']
        } else if c == ';' {
            seq![';']
        } else if c == 'n' {
            seq!['\n']
        } else if c == 'r' {
            seq!['\r']
        } else if c == 't' {
            seq!['\t']
        } else {
            seq!['\\', c]
        }) + unescape(t),
        c != '\\' ==> unescape(seq![c] + t) == seq![c] + unescape(t),
        unescape(seq!['\\']) == seq!['\\'],
{
    reveal_with_fuel(unescape, 2);
    let s = seq!['\\', c] + t;
    assert(s[0] == '\\' && s[1] == c);
    assert(s.subrange(2, s.len() as int) =~= t);
    let u = seq![c] + t;
    assert(u[0] == c);
    assert(u.subrange(1, u.len() as int) =~= t);
    let one = seq!['\\'];
    assert(one.subrange(1, 1) =~= seq![]);
    assert(one + Seq::<char>::empty() =~= one);
}

/// What has no special meaning is written inside quotes as it is.
pub proof fn ordinary_texts_need_no_escapes(s: Text)
    requires
        forall|i: int|
            0 <= i < s.len() ==> #[trigger] s[i] != '\\' && s[i] != '"' && s[i] != ';' && s[i]
                != '\n' && s[i] != '\r' && s[i] != '\t',
    ensures
        escape(s) == s,
        unescape(s) == s,
    decreases s.len(),
{
    if s.len() > 0 {
        let rest = s.subrange(1, s.len() as int);
        assert forall|i: int| 0 <= i < rest.len() implies #[trigger] rest[i] != '\\' && rest[i]
            != '"' && rest[i] != ';' && rest[i] != '\n' && rest[i] != '\r' && rest[i] != '\t' by {
            assert(rest[i] == s[i + 1]);
        }
        ordinary_texts_need_no_escapes(rest);
        assert(s =~= seq![s[0]] + rest);
        assert(s[0] != '\\');
    }
}

} // verus!
