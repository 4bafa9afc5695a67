//! What is written reads back: tokens, keys and the headers of arrays.

use vstd::prelude::*;
use crate::bytes::lemma_encode_contains;
use crate::decoder::{key_before, leading_key};
use crate::encoder::{
    field_texts, header_text, is_plain_key, is_safe, joined, key_text, primitive_text, quoted,
    unsafe_in_key, unsafe_in_value,
};
use crate::lines::{
    array_header, bare_key, bare_keys, fields_end, fields_len, header_delimiter, header_fields,
    header_inline, key_name, key_names, Header,
};
use crate::number::{
    digits_end, digits_text, exponent_start, fraction_end, integer_text, is_digit, lemma_digits_end,
    lemma_digits_text, lemma_parts, length_of, number_of, sign_len, whole_end, Num,
};
use crate::scan::{
    behind_quotes, brace_span, bracket_close, cell_end, cut_pieces, escape, escaped, has_colon,
    key_colon, lemma_first_mark, open_colon, open_to, outside, piece_end, pieces, quote_close, step,
    unescape, unescape_undoes_escape, Place,
};
use crate::schema_registry::Stores;
use crate::text::{
    find_from, is_space, lemma_find_at, lemma_find_from, starts_with, trim, trim_end, trim_start,
    Text,
};
use crate::tokens::{inline_value, plain_token, primitive};
use crate::value::{is_simple, Val};

verus! {

// ---------------------------------------------------------------------------
// White space

/// Whether `s` begins and ends with a character that is not white space.
pub open spec fn is_trim(s: Text) -> bool {
    s.len() > 0 && !is_space(s[0]) && !is_space(s.last())
}

/// A text without white space around it stays as it is, with a space before it
/// or without.
pub proof fn lemma_trim_of_trim(s: Text)
    requires
        is_trim(s),
    ensures
        trim(s) == s,
        trim(seq![' '] + s) == s,
{
    let t = seq![' '] + s;
    assert(trim_start(s) == s);
    assert(trim_end(s) == s);
    assert(t.subrange(1, t.len() as int) =~= s);
    assert(trim_start(t) == trim_start(s));
}

// ---------------------------------------------------------------------------
// Where a reader is behind a part of a text

/// Where a reader is once it has read the first `n` characters of `s`.
pub open spec fn place_at(s: Text, n: int) -> Place
    decreases n,
{
    if n <= 0 {
        outside()
    } else {
        step(place_at(s, n - 1), s[n - 1])
    }
}

/// Where a reader is depends on what it has read alone.
pub proof fn lemma_place_same(s: Text, t: Text, n: int)
    requires
        n <= s.len(),
        n <= t.len(),
        forall|j: int| 0 <= j < n ==> s[j] == t[j],
    ensures
        place_at(s, n) == place_at(t, n),
    decreases n,
{
    if n > 0 {
        lemma_place_same(s, t, n - 1);
    }
}

/// Where a reader is behind two texts, the first of which leaves it outside.
pub proof fn lemma_place_behind(a: Text, b: Text, n: int)
    requires
        place_at(a, a.len() as int) == outside(),
        0 <= n <= b.len(),
    ensures
        place_at(a + b, a.len() + n) == place_at(b, n),
    decreases n,
{
    if n > 0 {
        lemma_place_behind(a, b, n - 1);
        assert((a + b)[a.len() + n - 1] == b[n - 1]);
    } else {
        lemma_place_same(a + b, a, a.len() as int);
    }
}

/// Whether none of the characters has a meaning.
pub open spec fn no_marks(s: Text) -> bool {
    forall|i: int| 0 <= i < s.len() ==> !unsafe_in_key(#[trigger] s[i])
}

/// Whether none of the characters has a meaning, spaces aside.
pub open spec fn no_quotes_or_braces(s: Text) -> bool {
    forall|i: int|
        0 <= i < s.len() ==> {
            let c = #[trigger] s[i];
            c != '"' && c != '{' && c != '}' && c != '[' && c != ']'
        }
}

/// A reader stays outside.
pub proof fn lemma_place_outside(s: Text, n: int)
    requires
        no_quotes_or_braces(s),
        0 <= n <= s.len(),
    ensures
        place_at(s, n) == outside(),
    decreases n,
{
    if n > 0 {
        lemma_place_outside(s, n - 1);
        let c = s[n - 1];
    }
}

/// Inside quotes.
pub open spec fn in_quotes() -> Place {
    Place { quoted: true, ..outside() }
}

/// A reader stays inside quotes over an escaped text.
pub proof fn lemma_place_escape(pre: Text, s: Text, post: Text, n: int)
    requires
        place_at(pre, pre.len() as int) == in_quotes(),
        0 <= n <= escape(s).len(),
    ensures
        ({
            let p = place_at(pre + escape(s) + post, pre.len() + n);
            p.quoted && p.brace == 0 && p.bracket == 0
        }),
        place_at(pre + escape(s) + post, (pre.len() + escape(s).len()) as int) == in_quotes(),
    decreases s.len(),
{
    let whole = pre + escape(s) + post;
    if s.len() == 0 {
        lemma_place_same(whole, pre, pre.len() as int);
    } else {
        let e = escaped(s[0]);
        let rest = s.subrange(1, s.len() as int);
        let pre2 = pre + e;
        assert(escape(s) == e + escape(rest));
        assert(pre2 + escape(rest) + post =~= whole);
        lemma_place_same(pre2, pre, pre.len() as int);
        reveal_with_fuel(place_at, 3);
        if e.len() == 2 {
            assert(pre2[pre.len() as int] == '\\');
            assert(place_at(pre2, pre.len() as int + 1) == Place { skip: true, ..in_quotes() });
            assert(place_at(pre2, pre.len() as int + 2) == in_quotes());
        } else {
            assert(pre2[pre.len() as int] == s[0]);
            assert(place_at(pre2, pre.len() as int + 1) == in_quotes());
        }
        assert(place_at(pre2, pre2.len() as int) == in_quotes());
        if n >= e.len() {
            lemma_place_escape(pre2, rest, post, n - e.len());
        } else {
            lemma_place_escape(pre2, rest, post, 0);
            lemma_place_same(whole, pre2, pre.len() + n);
        }
    }
}

/// A reader is inside quotes from the first to the last character of a quoted
/// text, and outside behind it.
pub proof fn lemma_place_quoted(s: Text, post: Text)
    ensures
        ({
            let t = quoted(s);
            &&& t.len() >= 2
            &&& t[0] == '"'
            &&& t.last() == '"'
            &&& place_at(t + post, t.len() as int) == outside()
            &&& forall|j: int|
                1 <= j < t.len() ==> {
                    let p = #[trigger] place_at(t + post, j);
                    p.quoted && p.brace == 0 && p.bracket == 0
                }
            &&& place_at(t + post, t.len() - 1) == in_quotes()
        }),
{
    let t = quoted(s);
    let pre = seq!['"'];
    let tail = seq!['"'] + post;
    assert(t + post =~= pre + escape(s) + tail);
    reveal_with_fuel(place_at, 2);
    assert(place_at(pre, 1) == in_quotes());
    assert forall|j: int| 1 <= j < t.len() implies {
        let p = #[trigger] place_at(t + post, j);
        p.quoted && p.brace == 0 && p.bracket == 0
    } by {
        lemma_place_escape(pre, s, tail, j - 1);
    }
    lemma_place_escape(pre, s, tail, 0);
}

/// The quote behind an escaped text is the one that closes it.
pub proof fn lemma_quote_close_escape(pre: Text, s: Text, post: Text)
    ensures
        quote_close(pre + escape(s) + seq!['"'] + post, pre.len() as int) == Some(
            (pre.len() + escape(s).len()) as int,
        ),
    decreases s.len(),
{
    let whole = pre + escape(s) + seq!['"'] + post;
    if s.len() > 0 {
        let e = escaped(s[0]);
        let rest = s.subrange(1, s.len() as int);
        let pre2 = pre + e;
        assert(escape(s) == e + escape(rest));
        assert(pre2 + escape(rest) + seq!['"'] + post =~= whole);
        lemma_quote_close_escape(pre2, rest, post);
        assert(whole[pre.len() as int] == e[0]);
        if e.len() == 2 {
            assert(whole[pre.len() as int + 1] == e[1]);
        }
    } else {
        assert(whole[pre.len() as int] == '"');
    }
}

/// What stands in quotes reads back.
pub proof fn lemma_quoted(s: Text, post: Text)
    ensures
        quote_close(quoted(s) + post, 1) == Some(quoted(s).len() - 1),
        (quoted(s) + post).subrange(1, quoted(s).len() - 1) == escape(s),
        unescape(escape(s)) == s,
{
    let pre = seq!['"'];
    assert(quoted(s) + post =~= pre + escape(s) + seq!['"'] + post);
    lemma_quote_close_escape(pre, s, post);
    assert((quoted(s) + post).subrange(1, quoted(s).len() - 1) =~= escape(s));
    unescape_undoes_escape(s);
}

/// An escaped text holds a character other than a backslash, a quote, a
/// semicolon or a letter of an escape only where the text does.
pub proof fn lemma_escape_holds(s: Text, c: char)
    requires
        c != '\\' && c != '"' && c != ';' && c != 'n' && c != 'r' && c != 't',
    ensures
        escape(s).contains(c) == (s.contains(c) && c != '\n' && c != '\r' && c != '\t'),
    decreases s.len(),
{
    if s.len() > 0 {
        let e = escaped(s[0]);
        let rest = s.subrange(1, s.len() as int);
        lemma_escape_holds(rest, c);
        assert(escape(s) == e + escape(rest));
        if escape(s).contains(c) {
            let i = choose|i: int| 0 <= i < escape(s).len() && escape(s)[i] == c;
            if i < e.len() {
                assert(e[i] == c);
                assert(s[0] == c);
            } else {
                assert(escape(rest)[i - e.len()] == c);
                assert(rest.contains(c));
                let j = choose|j: int| 0 <= j < rest.len() && rest[j] == c;
                assert(s[j + 1] == c);
            }
        }
        if s.contains(c) && c != '\n' && c != '\r' && c != '\t' {
            let i = choose|i: int| 0 <= i < s.len() && s[i] == c;
            if i == 0 {
                assert(escape(s)[0] == c);
            } else {
                assert(rest[i - 1] == c);
                let j = choose|j: int| 0 <= j < escape(rest).len() && escape(rest)[j] == c;
                assert(escape(s)[j + e.len()] == c);
            }
        }
    }
}

// ---------------------------------------------------------------------------
// Tokens between delimiters

/// Whether `p` is written as a token: in quotes, or of characters without a
/// meaning.
pub open spec fn is_token(p: Text) -> bool {
    (p.len() > 0 && no_marks(p)) || exists|s: Text| p == quoted(s)
}

/// A token leaves the reader outside.
pub proof fn lemma_token_place(p: Text, post: Text)
    requires
        is_token(p),
    ensures
        p.len() > 0,
        place_at(p + post, p.len() as int) == outside(),
{
    if p.len() > 0 && no_marks(p) {
        lemma_place_outside(p, p.len() as int);
        lemma_place_same(p + post, p, p.len() as int);
    } else {
        let s = choose|s: Text| p == quoted(s);
        lemma_place_quoted(s, post);
    }
}

/// No character of a token has a meaning outside of quotes.
pub proof fn lemma_token_closed(p: Text, post: Text, c: char, j: int)
    requires
        is_token(p),
        0 <= j < p.len(),
        unsafe_in_key(c),
        c != '"',
        c != '\\',
    ensures
        p[j] == c ==> place_at(p + post, j).quoted,
        p[j] == c ==> !open_to(place_at(p + post, j), c),
{
    if p.len() > 0 && no_marks(p) {
        assert(!unsafe_in_key(p[j]));
    } else {
        let s = choose|s: Text| p == quoted(s);
        lemma_place_quoted(s, post);
        if j > 0 {
            assert(place_at(p + post, j).quoted);
        }
    }
}

// ---------------------------------------------------------------------------
// Units between delimiters

/// Whether the reader of a text that closes what it opens may meet `c` where it
/// is at `p`: outside of quotes nothing closes that did not open, and no
/// semicolon stands there.
pub open spec fn sound_at(c: char, p: Place) -> bool {
    &&& p.brace >= 0
    &&& p.bracket >= 0
    &&& !p.skip && !p.quoted ==> {
        &&& c == '}' ==> p.brace >= 1
        &&& c == ']' ==> p.bracket >= 1
        &&& c != ';'
    }
}

/// Whether `t` closes what it opens, and holds no semicolon outside of quotes.
pub open spec fn is_sound(t: Text) -> bool {
    &&& place_at(t, t.len() as int) == outside()
    &&& forall|j: int| 0 <= j < t.len() ==> sound_at(t[j], #[trigger] place_at(t, j))
}

/// Whether the reader is in quotes, braces or brackets.
pub open spec fn covered(p: Place) -> bool {
    p.skip || p.quoted || p.brace > 0 || p.bracket > 0
}

/// Whether `t` is sound, and commas stand in it only in quotes, braces and
/// brackets.
pub open spec fn is_unit(t: Text) -> bool {
    &&& t.len() > 0
    &&& is_sound(t)
    &&& forall|j: int| 0 <= j < t.len() && t[j] == ',' ==> covered(#[trigger] place_at(t, j))
}

/// A token is a unit.
pub proof fn lemma_token_unit(p: Text)
    requires
        is_token(p),
    ensures
        is_unit(p),
{
    let none: Text = seq![];
    assert(p + none =~= p);
    lemma_token_place(p, none);
    assert forall|j: int| 0 <= j < p.len() implies sound_at(p[j], #[trigger] place_at(p, j)) && (p[j]
        == ',' ==> covered(place_at(p, j))) by {
        if no_marks(p) {
            lemma_place_outside(p, j);
            assert(!unsafe_in_key(p[j]));
        } else {
            let s = choose|s: Text| p == quoted(s);
            lemma_place_quoted(s, none);
            if j > 0 {
                assert(place_at(p + none, j).quoted);
            }
        }
    }
}

/// A text without quotes, braces, brackets and semicolons is sound, and without
/// commas a unit.
pub proof fn lemma_even_sound(t: Text)
    requires
        no_quotes_or_braces(t),
        !t.contains(';'),
    ensures
        is_sound(t),
        t.len() > 0 && !t.contains(',') ==> is_unit(t),
{
    lemma_place_outside(t, t.len() as int);
    assert forall|j: int| 0 <= j < t.len() implies sound_at(t[j], #[trigger] place_at(t, j)) by {
        lemma_place_outside(t, j);
        let c = t[j];
    }
}

/// Sound texts one behind the other.
pub proof fn lemma_sound_concat(a: Text, b: Text)
    requires
        is_sound(a),
        is_sound(b),
    ensures
        is_sound(a + b),
        is_unit(a) && is_unit(b) ==> is_unit(a + b),
{
    let s = a + b;
    lemma_place_behind(a, b, b.len() as int);
    assert forall|j: int| 0 <= j < s.len() implies sound_at(s[j], #[trigger] place_at(s, j)) by {
        if j < a.len() {
            lemma_place_same(s, a, j);
            assert(sound_at(a[j], place_at(a, j)));
        } else {
            lemma_place_behind(a, b, j - a.len());
            assert(sound_at(b[j - a.len()], place_at(b, j - a.len())));
        }
    }
    if is_unit(a) && is_unit(b) {
        assert forall|j: int| 0 <= j < s.len() && s[j] == ',' implies covered(
            #[trigger] place_at(s, j),
        ) by {
            if j < a.len() {
                lemma_place_same(s, a, j);
                assert(a[j] == ',');
                assert(covered(place_at(a, j)));
            } else {
                lemma_place_behind(a, b, j - a.len());
                assert(b[j - a.len()] == ',');
                assert(covered(place_at(b, j - a.len())));
            }
        }
    }
}

/// A text in braces or in brackets.
pub open spec fn wrapped(mid: Text, bracket: bool) -> Text {
    if bracket {
        seq!['['] + mid + seq![']']
    } else {
        seq!['{'] + mid + seq!['}']
    }
}

/// Where a reader is inside braces or brackets.
pub proof fn lemma_place_wrapped(mid: Text, bracket: bool, n: int)
    requires
        0 <= n <= mid.len(),
    ensures
        ({
            let p = place_at(mid, n);
            place_at(wrapped(mid, bracket), n + 1) == (Place {
                brace: if bracket {
                    p.brace
                } else {
                    p.brace + 1
                },
                bracket: if bracket {
                    p.bracket + 1
                } else {
                    p.bracket
                },
                ..p
            })
        }),
    decreases n,
{
    let t = wrapped(mid, bracket);
    reveal_with_fuel(place_at, 2);
    if n > 0 {
        lemma_place_wrapped(mid, bracket, n - 1);
        assert(t[n] == mid[n - 1]);
        assert(place_at(t, n + 1) == step(place_at(t, n), t[n]));
    } else {
        assert(place_at(t, 1) == step(outside(), t[0]));
    }
}

/// A sound text in braces or in brackets is a unit.
pub proof fn lemma_wrapped_unit(mid: Text, bracket: bool)
    requires
        is_sound(mid),
    ensures
        is_unit(wrapped(mid, bracket)),
{
    let t = wrapped(mid, bracket);
    let n = mid.len() as int;
    lemma_place_wrapped(mid, bracket, n);
    assert(place_at(t, n + 2) == step(place_at(t, n + 1), t[n + 1]));
    assert forall|j: int| 0 <= j < t.len() implies sound_at(t[j], #[trigger] place_at(t, j)) && (t[j]
        == ',' ==> covered(place_at(t, j))) by {
        if 0 < j <= n {
            lemma_place_wrapped(mid, bracket, j - 1);
            assert(t[j] == mid[j - 1]);
            assert(sound_at(mid[j - 1], place_at(mid, j - 1)));
        }
    }
}

/// The bracket that closes a sound text in brackets is the one behind it.
pub proof fn lemma_bracket_behind(mid: Text, i: int)
    requires
        is_sound(mid),
        0 <= i <= mid.len() + 1,
    ensures
        bracket_close(wrapped(mid, true), i, place_at(wrapped(mid, true), i)) == Some(
            mid.len() as int + 1,
        ),
    decreases mid.len() + 1 - i,
{
    let t = wrapped(mid, true);
    let n = mid.len() as int;
    if i <= n {
        lemma_bracket_behind(mid, i + 1);
        assert(place_at(t, i + 1) == step(place_at(t, i), t[i]));
        if i > 0 {
            lemma_place_wrapped(mid, true, i - 1);
            assert(t[i] == mid[i - 1]);
            assert(sound_at(mid[i - 1], place_at(mid, i - 1)));
        }
    } else {
        lemma_place_wrapped(mid, true, n);
        assert(t[n + 1] == ']');
    }
}

/// The brace that closes a sound text in braces is the one behind it.
pub proof fn lemma_brace_behind(mid: Text, i: int)
    requires
        is_sound(mid),
        0 <= i <= mid.len() + 1,
    ensures
        brace_span(wrapped(mid, false), i, place_at(wrapped(mid, false), i), 0) == Some(
            (0int, mid.len() as int + 1),
        ),
    decreases mid.len() + 1 - i,
{
    let t = wrapped(mid, false);
    let n = mid.len() as int;
    if i <= n {
        lemma_brace_behind(mid, i + 1);
        assert(place_at(t, i + 1) == step(place_at(t, i), t[i]));
        if i > 0 {
            lemma_place_wrapped(mid, false, i - 1);
            assert(t[i] == mid[i - 1]);
            assert(sound_at(mid[i - 1], place_at(mid, i - 1)));
        }
    } else {
        lemma_place_wrapped(mid, false, n);
        assert(t[n + 1] == '}');
    }
}

/// Where a piece ends: at the first comma outside of quotes, braces and
/// brackets.
pub proof fn lemma_piece_end_from(s: Text, i: int, k: int)
    requires
        0 <= i <= k <= s.len(),
        forall|j: int| i <= j < k && s[j] == ',' ==> covered(#[trigger] place_at(s, j)),
        k < s.len() ==> s[k] == ',' && place_at(s, k) == outside(),
    ensures
        piece_end(s, ',', i, place_at(s, i)) == k,
    decreases k - i,
{
    if i < k {
        assert(place_at(s, i + 1) == step(place_at(s, i), s[i]));
        lemma_piece_end_from(s, i + 1, k);
        assert(s[i] == ',' ==> covered(place_at(s, i)));
    }
}

/// The first piece of a text that begins with a unit, with a gap before it or
/// without.
pub proof fn lemma_first_piece(lead: Text, p: Text, post: Text)
    requires
        lead == Seq::<char>::empty() || lead == seq![' '],
        is_unit(p),
        post.len() > 0 ==> post[0] == ',',
    ensures
        piece_end(lead + p + post, ',', 0, outside()) == lead.len() + p.len(),
{
    let s = lead + p + post;
    let a = lead + p;
    assert(s =~= a + post);
    lemma_place_outside(lead, lead.len() as int);
    let k = a.len() as int;
    lemma_place_behind(lead, p, p.len() as int);
    lemma_place_same(s, a, k);
    assert forall|j: int| 0 <= j < k && s[j] == ',' implies covered(#[trigger] place_at(s, j)) by {
        lemma_place_same(s, a, j);
        assert(s[j] == a[j]);
        if j >= lead.len() {
            lemma_place_behind(lead, p, j - lead.len());
            assert(a[j] == p[j - lead.len()]);
            assert(covered(place_at(p, j - lead.len())));
        } else {
            assert(a[j] == lead[j]);
        }
    }
    if k < s.len() {
        assert(s[k] == post[0]);
    }
    lemma_piece_end_from(s, 0, k);
}

/// What stands before a unit that is not the first of those that are joined.
pub open spec fn gap(spaced: bool) -> Text {
    if spaced {
        seq![' ']
    } else {
        seq![]
    }
}

/// The pieces of joined units are the units, with the gaps before them.
pub proof fn lemma_joined_pieces(parts: Seq<Text>, spaced: bool, i: int)
    requires
        0 <= i < parts.len(),
        forall|j: int| 0 <= j < parts.len() ==> is_unit(#[trigger] parts[j]),
    ensures
        ({
            let lead = if i > 0 {
                gap(spaced)
            } else {
                seq![]
            };
            cut_pieces(lead + parts[i] + joined(parts, seq![','] + gap(spaced), i + 1), ',')
                == Seq::new(
                (parts.len() - i) as nat,
                |j: int|
                    if i + j > 0 {
                        gap(spaced) + parts[i + j]
                    } else {
                        parts[i + j]
                    },
            )
        }),
    decreases parts.len() - i,
{
    let sep = seq![','] + gap(spaced);
    let lead = if i > 0 {
        gap(spaced)
    } else {
        seq![]
    };
    let post = joined(parts, sep, i + 1);
    let s = lead + parts[i] + post;
    let want = Seq::new(
        (parts.len() - i) as nat,
        |j: int|
            if i + j > 0 {
                gap(spaced) + parts[i + j]
            } else {
                parts[i + j]
            },
    );
    assert(is_unit(parts[i]));
    if i + 1 < parts.len() {
        let next = gap(spaced) + parts[i + 1] + joined(parts, sep, i + 2);
        assert(post =~= seq![','] + next);
        lemma_first_piece(lead, parts[i], post);
        let e = (lead.len() + parts[i].len()) as int;
        assert(s.subrange(0, e) =~= lead + parts[i]);
        assert(s.subrange(e + 1, s.len() as int) =~= next);
        lemma_joined_pieces(parts, spaced, i + 1);
        assert(cut_pieces(s, ',') =~= seq![lead + parts[i]] + cut_pieces(next, ','));
        assert(lead + parts[i] =~= want[0]);
        assert(cut_pieces(s, ',') =~= want);
    } else {
        assert(post =~= seq![]);
        lemma_first_piece(lead, parts[i], post);
        assert(s =~= lead + parts[i]);
        assert(cut_pieces(s, ',') =~= seq![s]);
        assert(seq![s] =~= want);
    }
}

/// The pieces of joined units.
pub proof fn lemma_all_pieces(parts: Seq<Text>, spaced: bool)
    requires
        parts.len() > 0,
        forall|j: int| 0 <= j < parts.len() ==> is_unit(#[trigger] parts[j]),
    ensures
        ({
            let x = joined(parts, seq![','] + gap(spaced), 0);
            &&& x.len() > 0
            &&& pieces(x, ',').len() == parts.len()
            &&& forall|j: int|
                0 <= j < parts.len() ==> #[trigger] pieces(x, ',')[j] == (if j > 0 {
                    gap(spaced) + parts[j]
                } else {
                    parts[j]
                })
        }),
{
    let sep = seq![','] + gap(spaced);
    lemma_joined_pieces(parts, spaced, 0);
    assert(is_unit(parts[0]));
    assert(joined(parts, sep, 0) =~= Seq::<char>::empty() + parts[0] + joined(parts, sep, 1));
}

// ---------------------------------------------------------------------------
// Primitives

/// Whether the string `s` reads back where it is written without quotes: no
/// white space stands around it, and no newline in it.
pub open spec fn reads_plain(s: Text) -> bool {
    is_trim(s) && !s.contains('\n')
}

/// Whether a primitive reads back. A float does where it is finite.
pub open spec fn token_reads(v: Val) -> bool {
    match v {
        Val::Float(t) => number_of(t) == Num::Decimal(t),
        Val::Str(s) => is_safe(s, ',') ==> reads_plain(s),
        _ => true,
    }
}

/// A safe string holds no character with a meaning.
pub proof fn lemma_safe(s: Text)
    requires
        is_safe(s, ','),
    ensures
        no_marks(s),
{
    assert forall|i: int| 0 <= i < s.len() implies !unsafe_in_key(#[trigger] s[i]) by {
        assert(!unsafe_in_value(s[i]));
        if s[i] == ',' {
            assert(s.contains(','));
            lemma_encode_contains(s, 0x2cu8);
            assert(0x2cu8 as char == ',');
            assert(',' as u32 % 256 == 0x2cu32);
        }
    }
}

/// The text of an integer reads back as the integer.
pub proof fn lemma_integer_reads(n: i64)
    ensures
        no_marks(integer_text(n as int)),
        integer_text(n as int).len() > 0,
        is_digit(integer_text(n as int)[0]) || integer_text(n as int)[0] == '-',
        is_digit(integer_text(n as int).last()),
        !integer_text(n as int).contains('\n'),
        number_of(integer_text(n as int)) == Num::Whole(n),
{
    let t = integer_text(n as int);
    let m = if n < 0 {
        (-n) as nat
    } else {
        n as nat
    };
    let d = digits_text(m);
    lemma_digits_text(m);
    let a = sign_len(t);
    assert forall|i: int| 0 <= i < t.len() implies !unsafe_in_key(#[trigger] t[i]) && t[i] != '\n' by {
        if n < 0 {
            if i > 0 {
                assert(is_digit(d[i - 1]));
            }
        } else {
            assert(is_digit(d[i]));
        }
    }
    assert(is_digit(d[0]));
    assert(is_digit(d[d.len() - 1]));
    assert(a == (if n < 0 {
        1int
    } else {
        0int
    }));
    assert(t.subrange(a, t.len() as int) =~= d);
    lemma_digits_end(t, a);
    let e = digits_end(t, a);
    if e < t.len() {
        assert(t[e] == d[e - a]);
        assert(is_digit(d[e - a]));
    }
    assert(whole_end(t) == t.len());
    assert(t[a] == d[0]);
}

/// A decimal text holds no character with a meaning.
pub proof fn lemma_decimal_plain(t: Text)
    requires
        number_of(t) == Num::Decimal(t),
    ensures
        t.len() > 0,
        no_marks(t),
        is_trim(t),
        !t.contains('\n'),
        is_digit(t[0]) || t[0] == '-' || t[0] == '+' || t[0] == '.',
{
    lemma_parts(t);
    let a = sign_len(t);
    let b = whole_end(t);
    let e = fraction_end(t);
    lemma_digits_end(t, a);
    if b < t.len() && t[b] == '.' {
        lemma_digits_end(t, b + 1);
    }
    let x = match exponent_start(t) {
        Some(x) => x,
        None => t.len() as int,
    };
    lemma_digits_end(t, x);
    assert forall|i: int| 0 <= i < t.len() implies (is_digit(#[trigger] t[i]) || t[i] == '-' || t[i]
        == '+' || t[i] == '.' || t[i] == 'e' || t[i] == 'E') by {
        if i < a {
        } else if i < b {
            assert(is_digit(t.subrange(a, b)[i - a]));
        } else if i < e {
            if i > b {
                assert(is_digit(t.subrange(b + 1, e)[i - b - 1]));
            }
        } else if i < x {
        } else {
            assert(is_digit(t.subrange(x, t.len() as int)[i - x]));
        }
    }
    assert(!is_space(t[0]));
    assert(!is_space(t.last()));
}

/// A primitive reads back from its text, with a space before it or without.
pub proof fn lemma_primitive_reads(s: Stores, open: Seq<Text>, v: Val)
    requires
        is_simple(v),
        token_reads(v),
    ensures
        ({
            let p = primitive_text(v, ',');
            &&& is_token(p)
            &&& is_trim(p)
            &&& !p.contains('\n')
            &&& p != "[]"@
            &&& p != "{}"@
            &&& p[0] != '#'
            &&& p[0] != '@'
            &&& p[0] != '['
            &&& p[0] != '{'
            &&& primitive(s, open, p) == (v, open)
            &&& primitive(s, open, seq![' '] + p) == (v, open)
            &&& inline_value(s, open, p) == (v, open)
            &&& (v is Str || !p.contains(':'))
        }),
{
    let p = primitive_text(v, ',');
    reveal_strlit("null");
    reveal_strlit("true");
    reveal_strlit("false");
    reveal_strlit("[]");
    reveal_strlit("{}");
    reveal_strlit("@s:");
    reveal_strlit("@r:");
    reveal_strlit("@sec:");
    match v {
        Val::Null => {},
        Val::Bool(b) => {},
        Val::Integer(n) => {
            lemma_integer_reads(n);
        },
        Val::Float(t) => {
            lemma_decimal_plain(t);
        },
        Val::Str(x) => {
            if is_safe(x, ',') {
                lemma_safe(x);
                assert(!unsafe_in_key(x[0]));
            } else {
                lemma_place_quoted(x, seq![]);
                lemma_quoted(x, seq![]);
                assert(quoted(x) + seq![] =~= quoted(x));
                lemma_escape_holds(x, '\n');
                assert forall|i: int| 0 <= i < p.len() implies p[i] != '\n' by {
                    if 0 < i < p.len() - 1 {
                        assert(p[i] == escape(x)[i - 1]);
                    }
                }
            }
        },
        _ => {},
    }
    assert(is_token(p));
    assert(is_trim(p));
    lemma_trim_of_trim(p);
    if !(v is Str) {
        assert(no_marks(p));
    }
    assert(!starts_with(p, "@s:"@)) by {
        if starts_with(p, "@s:"@) {
            assert(p.subrange(0, 3)[0] == p[0]);
        }
    }
    assert(!starts_with(p, "@r:"@)) by {
        if starts_with(p, "@r:"@) {
            assert(p.subrange(0, 3)[0] == p[0]);
        }
    }
    assert(!starts_with(p, "@sec:"@)) by {
        if starts_with(p, "@sec:"@) {
            assert(p.subrange(0, 5)[0] == p[0]);
        }
    }
    assert(plain_token(p) == v);
}

// ---------------------------------------------------------------------------
// Keys

/// Whether a key reads back where a value stands behind it.
pub open spec fn key_reads(k: Text) -> bool {
    is_plain_key(k) ==> reads_plain(k)
}

/// A key as it stands in a document, without the quotes around it.
pub open spec fn raw_key(k: Text) -> Text {
    if is_plain_key(k) {
        k
    } else {
        escape(k)
    }
}

/// Keys as they stand in a document, without the quotes around them.
pub open spec fn raw_keys(s: Seq<Text>) -> Seq<Text> {
    Seq::new(s.len(), |i: int| raw_key(s[i]))
}

/// The first colon outside of quotes and braces.
pub proof fn lemma_open_colon_from(s: Text, i: int, k: int)
    requires
        0 <= i <= k < s.len(),
        forall|j: int| i <= j < k ==> !(s[j] == ':' && open_to(#[trigger] place_at(s, j), ':')),
        s[k] == ':',
        place_at(s, k) == outside(),
    ensures
        open_colon(s, i, place_at(s, i)) == Some(k),
    decreases k - i,
{
    if i < k {
        assert(place_at(s, i + 1) == step(place_at(s, i), s[i]));
        lemma_open_colon_from(s, i + 1, k);
        assert(!(s[i] == ':' && open_to(place_at(s, i), ':')));
    }
}

/// How a key is written.
pub proof fn lemma_key_text(k: Text)
    requires
        key_reads(k),
    ensures
        ({
            let t = key_text(k);
            &&& t.len() > 0
            &&& is_token(t)
            &&& is_trim(t)
            &&& !t.contains('\n')
            &&& t[0] != '#'
            &&& t[0] != '@'
            &&& t[0] != '['
            &&& t[0] != '{'
            &&& t[0] != ' '
            &&& (t.len() > 1 ==> t[0] == '-' ==> t[1] != ' ')
            &&& t != "{}"@
        }),
{
    let t = key_text(k);
    reveal_strlit("{}");
    if is_plain_key(k) {
        assert(no_marks(t));
        assert(!unsafe_in_key(t[0]));
        if t.len() > 1 {
            assert(!unsafe_in_key(t[1]));
        }
    } else {
        lemma_place_quoted(k, seq![]);
        lemma_escape_holds(k, '\n');
        assert forall|i: int| 0 <= i < t.len() implies t[i] != '\n' by {
            if 0 < i < t.len() - 1 {
                assert(t[i] == escape(k)[i - 1]);
            }
        }
    }
}

/// The key of a line reads back.
pub proof fn lemma_key_line(k: Text, rest: Text)
    requires
        key_reads(k),
    ensures
        ({
            let t = key_text(k);
            let c = t + seq![':'] + rest;
            &&& key_colon(c) == Some(t.len() as int)
            &&& key_before(c, t.len() as int) == Ok::<(Text, int), Text>((k, t.len() as int + 1))
            &&& leading_key(c) == Ok::<(Text, int), Text>((k, t.len() as int + 1))
            &&& has_colon(c)
            &&& array_header(c) is None
        }),
{
    let t = key_text(k);
    let post = seq![':'] + rest;
    let c = t + seq![':'] + rest;
    let n = t.len() as int;
    assert(c =~= t + post);
    assert(c[n] == ':');
    lemma_key_text(k);
    lemma_token_colon(t, rest);
    assert(c.subrange(0, n) =~= t);
    if is_plain_key(k) {
        assert forall|j: int| 0 <= j < n implies c[j] != ':' && c[j] != '"' && c[j] != '{' by {
            assert(!unsafe_in_key(t[j]));
        }
        lemma_first_mark(c, 0);
        lemma_find_at(c, ':', n);
        lemma_trim_of_trim(k);
    } else {
        lemma_first_mark(c, 0);
        assert(c[0] == '"');
        lemma_token_place(t, post);
        assert forall|j: int| 0 <= j < n implies !(c[j] == ':' && open_to(
            #[trigger] place_at(c, j),
            ':',
        )) by {
            lemma_token_closed(t, post, ':', j);
        }
        lemma_open_colon_from(c, 0, n);
        lemma_quoted(k, post);
    }
}

// ---------------------------------------------------------------------------
// Headers

/// Where what stands behind a token in quotes begins.
pub proof fn lemma_behind_token(p: Text, post: Text)
    requires
        is_token(p),
    ensures
        behind_quotes(p + post) == (if p[0] == '"' {
            p.len() as int
        } else {
            0
        }),
        p[0] != '"' ==> no_marks(p),
{
    if p.len() > 0 && no_marks(p) {
        assert(!unsafe_in_key(p[0]));
        assert((p + post)[0] == p[0]);
    } else {
        let s = choose|s: Text| p == quoted(s);
        lemma_quoted(s, post);
        assert((p + post)[0] == '"');
    }
}

/// A line with a token and a colon holds a colon, and is not taken for the
/// header of an array.
pub proof fn lemma_token_colon(p: Text, rest: Text)
    requires
        is_token(p),
    ensures
        has_colon(p + seq![':'] + rest),
        array_header(p + seq![':'] + rest) is None,
{
    reveal(array_header);
    let post = seq![':'] + rest;
    let c = p + seq![':'] + rest;
    let n = p.len() as int;
    assert(c =~= p + post);
    lemma_behind_token(p, post);
    let q = behind_quotes(c);
    assert(c[n] == ':');
    lemma_find_from(c, ':', q);
    lemma_find_from(c, '[', q);
    if p[0] != '"' {
        assert forall|j: int| 0 <= j < n implies c[j] != '[' && c[j] != ':' by {
            assert(!unsafe_in_key(p[j]));
        }
    }
}

/// A token holds no colon, that in quotes aside, and is not taken for the header
/// of an array.
pub proof fn lemma_token_no_colon(p: Text)
    requires
        is_token(p),
    ensures
        !has_colon(p),
        array_header(p) is None,
{
    reveal(array_header);
    let none: Text = seq![];
    assert(p + none =~= p);
    lemma_behind_token(p, none);
    let q = behind_quotes(p);
    lemma_find_from(p, ':', q);
    if p[0] != '"' {
        assert forall|j: int| 0 <= j < p.len() implies p[j] != ':' by {
            assert(!unsafe_in_key(p[j]));
        }
    }
}

/// The header of an array holds a colon.
pub proof fn lemma_header_colon(c: Text)
    requires
        array_header(c) is Some,
    ensures
        has_colon(c),
{
    reveal(array_header);
}

/// What holds no colon is not taken for the header of an array.
pub proof fn lemma_no_colon(c: Text)
    requires
        !has_colon(c),
    ensures
        array_header(c) is None,
{
    reveal(array_header);
}

/// A key is read without its quotes, with its escapes and without them.
pub proof fn lemma_key_name(k: Text)
    requires
        key_reads(k),
    ensures
        key_name(key_text(k)) == k,
        bare_key(key_text(k)) == raw_key(k),
        key_name(seq![' '] + key_text(k)) == k,
        bare_key(seq![' '] + key_text(k)) == raw_key(k),
{
    let t = key_text(k);
    lemma_key_text(k);
    lemma_trim_of_trim(t);
    if is_plain_key(k) {
        assert(!unsafe_in_key(k[0]));
    } else {
        lemma_quoted(k, seq![]);
        assert(t + seq![] =~= t);
        assert(t.subrange(1, t.len() - 1) =~= escape(k));
    }
}

/// The names of optional fields.
pub open spec fn names_of(f: Option<Seq<Text>>) -> Option<Seq<Text>> {
    match f {
        Some(f) => Some(key_names(f)),
        None => None,
    }
}

/// Optional fields without quotes.
pub open spec fn bares_of(f: Option<Seq<Text>>) -> Option<Seq<Text>> {
    match f {
        Some(f) => Some(bare_keys(f)),
        None => None,
    }
}

/// A key, where there is one, as it stands in a document without quotes.
pub open spec fn raw_name(k: Option<Text>) -> Option<Text> {
    match k {
        Some(name) => Some(raw_key(name)),
        None => None,
    }
}

/// A key, or nothing, before the header of an array.
pub open spec fn head_key(k: Option<Text>) -> Text {
    match k {
        Some(name) => key_text(name),
        None => seq![],
    }
}

/// Where the brackets of a header stand.
proof fn lemma_header_brackets(k: Option<Text>, n: nat, tail: Text)
    requires
        k matches Some(name) ==> key_reads(name),
        tail.contains(':'),
    ensures
        ({
            let t = head_key(k);
            let c = header_text(t, n) + tail;
            let b = t.len() as int;
            let e = b + 1 + integer_text(n as int).len();
            let q = behind_quotes(c);
            &&& find_from(c, '[', q) == Some(b)
            &&& find_from(c, ':', q) matches Some(f) && b < f
            &&& find_from(c, ']', b) == Some(e)
            &&& c.subrange(b + 1, e) == integer_text(n as int)
            &&& c.subrange(e + 1, c.len() as int) == tail
            &&& c.subrange(0, b) == t
            &&& e + 1 == header_text(t, n).len()
        }),
{
    let t = head_key(k);
    let dg = integer_text(n as int);
    let c = header_text(t, n) + tail;
    let b = t.len() as int;
    let e = b + 1 + dg.len();
    let q = behind_quotes(c);
    lemma_digits_text(n);
    assert(c.len() == t.len() + dg.len() + 2 + tail.len());
    assert forall|j: int| 0 <= j < dg.len() implies is_digit(#[trigger] dg[j]) by {}
    assert(forall|j: int| 0 <= j < b ==> c[j] == t[j]);
    assert(c[b] == '[');
    assert(forall|j: int| b < j < e ==> c[j] == dg[j - b - 1]);
    assert(c[e] == ']');
    if let Some(name) = k {
        lemma_key_text(name);
        assert(c =~= t + c.subrange(b, c.len() as int));
        lemma_behind_token(t, c.subrange(b, c.len() as int));
    }
    assert forall|j: int| q <= j < b implies c[j] != '[' && c[j] != ':' by {
        assert(!unsafe_in_key(t[j]));
    }
    assert(0 <= q <= b);
    lemma_find_from(c, '[', q);
    lemma_find_from(c, ']', b);
    lemma_find_from(c, ':', q);
    assert(find_from(c, ':', q) matches Some(f) && b < f) by {
        let i = choose|i: int| 0 <= i < tail.len() && tail[i] == ':';
        assert(c[e + 1 + i] == ':');
    }
    assert(c.subrange(b + 1, e) =~= dg);
    assert(c.subrange(e + 1, c.len() as int) =~= tail);
    assert(c.subrange(0, b) =~= t);
}

/// The header of an array without a key or with one that reads back, behind
/// which `tail` begins with a colon or a brace and holds a colon.
pub proof fn lemma_header(k: Option<Text>, n: nat, tail: Text)
    requires
        k matches Some(name) ==> key_reads(name),
        n <= usize::MAX,
        tail.contains(':'),
    ensures
        ({
            let head = header_text(head_key(k), n);
            let c = head + tail;
            array_header(c) == Some(
                Header {
                    key: k,
                    raw: raw_name(k),
                    length: n,
                    delimiter: ',',
                    fields: names_of(header_fields(tail, ',')),
                    raw_fields: bares_of(header_fields(tail, ',')),
                    inline: header_inline(c, head.len() + fields_len(tail)),
                },
            )
        }),
{
    reveal(array_header);
    let t = head_key(k);
    let dg = integer_text(n as int);
    lemma_header_brackets(k, n, tail);
    lemma_digits_text(n);
    assert(is_digit(dg[0]));
    assert(is_digit(dg[dg.len() - 1]));
    assert(length_of(dg) == Some(n));
    assert(header_delimiter(dg) == ',');
    if let Some(name) = k {
        lemma_key_text(name);
        lemma_key_name(name);
    }
}

/// The values behind the colon of a header.
pub proof fn lemma_header_inline(head: Text, x: Text)
    requires
        is_trim(x),
    ensures
        header_inline(head + seq![':', ' '] + x, head.len() as int) == Some(x),
{
    let c = head + seq![':', ' '] + x;
    let k = head.len() as int;
    assert(c[k] == ':');
    assert(find_from(c, ':', k) == Some(k));
    assert(c.subrange(k + 1, c.len() as int) =~= seq![' '] + x);
    lemma_trim_of_trim(x);
}

/// No values stand behind a colon at the end.
pub proof fn lemma_header_no_inline(head: Text)
    ensures
        header_inline(head + seq![':'], head.len() as int) is None,
{
    let c = head + seq![':'];
    let k = head.len() as int;
    assert(c[k] == ':');
    assert(find_from(c, ':', k) == Some(k));
    assert(c.subrange(c.len() as int, c.len() as int) =~= seq![]);
    assert(trim(Seq::<char>::empty()) =~= seq![]);
}

/// Where a reader of joined tokens is behind them, and that no closing brace in
/// them stands outside of quotes.
proof fn lemma_joined_closed(parts: Seq<Text>, i: int, post: Text)
    requires
        0 <= i <= parts.len(),
        forall|j: int| 0 <= j < parts.len() ==> is_token(#[trigger] parts[j]),
    ensures
        ({
            let x = joined(parts, seq![','], i);
            let s = x + post;
            &&& place_at(s, x.len() as int) == outside()
            &&& forall|j: int|
                0 <= j < x.len() ==> !(x[j] == '}' && open_to(#[trigger] place_at(s, j), '}'))
        }),
    decreases parts.len() - i,
{
    let x = joined(parts, seq![','], i);
    let s = x + post;
    if i < parts.len() {
        let lead: Text = if i > 0 {
            seq![',']
        } else {
            seq![]
        };
        let p = parts[i];
        let rest = joined(parts, seq![','], i + 1);
        let a = lead + p;
        let b = rest + post;
        assert(s =~= a + b);
        assert(s =~= lead + (p + b));
        lemma_joined_closed(parts, i + 1, post);
        lemma_place_outside(lead, lead.len() as int);
        lemma_token_place(p, b);
        lemma_place_behind(lead, p + b, p.len() as int);
        lemma_place_same(s, a, a.len() as int);
        lemma_place_behind(a, b, rest.len() as int);
        assert forall|j: int| 0 <= j < x.len() implies !(x[j] == '}' && open_to(
            #[trigger] place_at(s, j),
            '}',
        )) by {
            if j < lead.len() {
                assert(x[j] == lead[j]);
            } else if j < a.len() {
                lemma_place_behind(lead, p + b, j - lead.len());
                lemma_token_closed(p, b, '}', j - lead.len());
                assert(x[j] == p[j - lead.len()]);
            } else {
                lemma_place_behind(a, b, j - a.len());
                assert(x[j] == rest[j - a.len()]);
            }
        }
    } else {
        assert(x =~= seq![]);
        assert(s =~= post);
    }
}

/// Where a cell ends.
pub proof fn lemma_cell_end(s: Text, d: char, i: int, k: int)
    requires
        0 <= i <= k <= s.len(),
        forall|j: int| i <= j < k ==> !(s[j] == d && open_to(#[trigger] place_at(s, j), d)),
        k < s.len() ==> s[k] == d && place_at(s, k) == outside(),
        d != '"',
    ensures
        cell_end(s, d, i, place_at(s, i)) == k,
    decreases k - i,
{
    if i < k {
        assert(place_at(s, i + 1) == step(place_at(s, i), s[i]));
        lemma_cell_end(s, d, i + 1, k);
        assert(!(s[i] == d && open_to(place_at(s, i), d)));
    }
}

/// Joined tokens hold a character only where one of them does.
pub proof fn lemma_joined_holds(parts: Seq<Text>, sep: Text, i: int, c: char)
    requires
        0 <= i,
        !sep.contains(c),
        forall|j: int| 0 <= j < parts.len() ==> !(#[trigger] parts[j]).contains(c),
    ensures
        !joined(parts, sep, i).contains(c),
    decreases parts.len() - i,
{
    if i < parts.len() {
        lemma_joined_holds(parts, sep, i + 1, c);
        let x = joined(parts, sep, i);
        let lead = if i > 0 {
            sep
        } else {
            seq![]
        };
        let rest = joined(parts, sep, i + 1);
        assert(x == lead + parts[i] + rest);
        assert forall|j: int| 0 <= j < x.len() implies x[j] != c by {
            if j < lead.len() {
                assert(x[j] == sep[j]);
            } else if j < lead.len() + parts[i].len() {
                assert(x[j] == parts[i][j - lead.len()]);
                assert(!parts[i].contains(c));
            } else {
                assert(x[j] == rest[j - lead.len() - parts[i].len()]);
            }
        }
    }
}

/// Joined tokens without white space around them have none around them.
pub proof fn lemma_joined_trim(parts: Seq<Text>, sep: Text, i: int)
    requires
        0 <= i < parts.len(),
        forall|j: int| 0 <= j < parts.len() ==> is_trim(#[trigger] parts[j]),
    ensures
        joined(parts, sep, i).len() > 0,
        !is_space(joined(parts, sep, i).last()),
        i == 0 ==> is_trim(joined(parts, sep, 0)),
        i == 0 ==> joined(parts, sep, 0)[0] == parts[0][0],
    decreases parts.len() - i,
{
    let x = joined(parts, sep, i);
    let lead = if i > 0 {
        sep
    } else {
        seq![]
    };
    let rest = joined(parts, sep, i + 1);
    assert(x == lead + parts[i] + rest);
    assert(is_trim(parts[i]));
    if i + 1 < parts.len() {
        lemma_joined_trim(parts, sep, i + 1);
        assert(x.last() == rest.last());
    } else {
        assert(x.last() == parts[i].last());
    }
    if i == 0 {
        assert(x[0] == parts[0][0]);
    }
}

/// The fields of a table read back.
pub proof fn lemma_fields(f: Seq<Text>)
    requires
        f.len() > 0,
        forall|j: int| 0 <= j < f.len() ==> key_reads(#[trigger] f[j]),
    ensures
        ({
            let mid = seq!['{'] + joined(field_texts(f), seq![','], 0) + seq!['}'];
            let tail = mid + seq![':'];
            &&& names_of(header_fields(tail, ',')) == Some(f)
            &&& bares_of(header_fields(tail, ',')) == Some(raw_keys(f))
            &&& fields_len(tail) == mid.len()
        }),
{
    let parts = field_texts(f);
    let x = joined(parts, seq![','], 0);
    let mid = seq!['{'] + x + seq!['}'];
    let after = mid + seq![':'];
    let inner = after.subrange(1, after.len() as int);
    let post: Text = seq!['}', ':'];
    let z = x.len() as int;
    assert(inner =~= x + post);
    assert forall|j: int| 0 <= j < parts.len() implies is_token(#[trigger] parts[j]) && is_unit(
        parts[j],
    ) by {
        assert(key_reads(f[j]));
        lemma_key_text(f[j]);
        lemma_token_unit(parts[j]);
    }
    lemma_joined_closed(parts, 0, post);
    assert(inner[z] == '}');
    assert forall|j: int| 0 <= j < z implies !(inner[j] == '}' && open_to(
        #[trigger] place_at(inner, j),
        '}',
    )) by {
        assert(inner[j] == x[j]);
    }
    lemma_cell_end(inner, '}', 0, z);
    assert(fields_end(after) == Some(z + 1));
    assert(after.subrange(1, z + 1) =~= x);
    assert(seq![','] + gap(false) =~= seq![',']);
    lemma_all_pieces(parts, false);
    let ps = pieces(x, ',');
    assert forall|j: int| 0 <= j < f.len() implies key_name(#[trigger] ps[j]) == f[j] && bare_key(
        ps[j],
    ) == raw_key(f[j]) by {
        assert(gap(false) + parts[j] =~= parts[j]);
        assert(ps[j] == parts[j]);
        assert(key_reads(f[j]));
        lemma_key_name(f[j]);
    }
    assert(key_names(ps) =~= f);
    assert(bare_keys(ps) =~= raw_keys(f));
}

} // verus!
