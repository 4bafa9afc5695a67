//! Arrays and objects on one line, as they can be written by hand.

use vstd::prelude::*;
use crate::agreeing::put_all;
use crate::marks::{
    closes_brace, closes_bracket, is_bare, lemma_place_start, lemma_place_step, opens_brace,
    place_at, the_braces_that_match_are_found, the_bracket_that_closes_is_found,
};
use crate::readback::lemma_trim_of_trim;
use crate::scan::{key_colon, pieces};
use crate::schema_registry::Stores;
use crate::text::{trim, Text};
use crate::tokens::{delimited, inline_entries, inline_value, unquoted};
use crate::value::{put, Entries, Val};

verus! {

/// Inside brackets.
proof fn lemma_in_brackets(x: Text, j: int)
    requires
        !x.contains('"'),
        !x.contains('['),
        !x.contains(']'),
        1 <= j <= x.len() + 1,
    ensures
        is_bare(seq!['['] + x + seq![']'], j),
        place_at(seq!['['] + x + seq![']'], j).bracket == 1,
    decreases j,
{
    let t = seq!['['] + x + seq![']'];
    lemma_place_step(t, j - 1);
    if j == 1 {
        lemma_place_start(t);
        assert(t[0] == '[');
    } else {
        lemma_in_brackets(x, j - 1);
        assert(t[j - 1] == x[j - 2]);
        assert(x.contains(x[j - 2]));
    }
}

/// What stands in brackets is an array of the values between its commas.
pub proof fn what_stands_in_brackets_is_an_array(s: Stores, open: Seq<Text>, x: Text)
    requires
        !x.contains('"'),
        !x.contains('['),
        !x.contains(']'),
    ensures
        ({
            let (a, left) = delimited(s, open, x, ',', 0, seq![]);
            inline_value(s, open, seq!['['] + x + seq![']']) == (Val::Array(a), left)
        }),
{
    let t = seq!['['] + x + seq![']'];
    let e = x.len() as int + 1;
    assert(t[0] == '[' && t[e] == ']');
    assert(t.last() == ']');
    lemma_trim_of_trim(t);
    lemma_in_brackets(x, e);
    assert(closes_bracket(t, e));
    assert forall|k: int| 0 <= k < e implies !#[trigger] closes_bracket(t, k) by {
        if k > 0 {
            assert(t[k] == x[k - 1]);
            assert(x.contains(x[k - 1]));
        }
    }
    the_bracket_that_closes_is_found(t, e);
    assert(t.subrange(1, e) =~= x);
}

/// Inside braces.
proof fn lemma_in_braces(x: Text, j: int)
    requires
        !x.contains('"'),
        !x.contains('{'),
        !x.contains('}'),
        1 <= j <= x.len() + 1,
    ensures
        is_bare(seq!['{'] + x + seq!['}'], j),
        place_at(seq!['{'] + x + seq!['}'], j).brace == 1,
    decreases j,
{
    let t = seq!['{'] + x + seq!['}'];
    lemma_place_step(t, j - 1);
    if j == 1 {
        lemma_place_start(t);
        assert(t[0] == '{');
    } else {
        lemma_in_braces(x, j - 1);
        assert(t[j - 1] == x[j - 2]);
        assert(x.contains(x[j - 2]));
    }
}

/// The key of a piece of an object on one line.
pub open spec fn piece_key(x: Text, i: int) -> Text {
    let p = trim(pieces(x, ',')[i]);
    unquoted(p.subrange(0, key_colon(p)->0))
}

/// The value of a piece of an object on one line.
pub open spec fn piece_value(x: Text, i: int) -> Text {
    let p = trim(pieces(x, ',')[i]);
    p.subrange(key_colon(p)->0 + 1, p.len() as int)
}

/// The entries of the first pieces.
pub open spec fn read_entries(s: Stores, open: Seq<Text>, x: Text, n: int) -> Entries {
    Seq::new(n as nat, |i: int| (piece_key(x, i), inline_value(s, open, piece_value(x, i)).0))
}

/// The entries from some piece on.
proof fn lemma_entries_from(s: Stores, open: Seq<Text>, x: Text, i: int)
    requires
        0 <= i <= pieces(x, ',').len(),
        forall|j: int|
            0 <= j < pieces(x, ',').len() ==> key_colon(trim(#[trigger] pieces(x, ',')[j])) is Some
                && inline_value(s, open, piece_value(x, j)).1 == open,
    ensures
        inline_entries(s, open, x, i, put_all(read_entries(s, open, x, i))) == (
            put_all(read_entries(s, open, x, pieces(x, ',').len() as int)),
            open,
        ),
    decreases pieces(x, ',').len() - i,
{
    if i < pieces(x, ',').len() {
        let done = read_entries(s, open, x, i);
        let next = read_entries(s, open, x, i + 1);
        let p = trim(pieces(x, ',')[i]);
        assert(key_colon(p) is Some);
        assert(next.drop_last() =~= done);
        let v = inline_value(s, open, piece_value(x, i)).0;
        assert(next.last() == (piece_key(x, i), v));
        assert(put_all(next) == put(put_all(done), piece_key(x, i), v));
        lemma_entries_from(s, open, x, i + 1);
        assert(inline_entries(s, open, x, i, put_all(done)) == inline_entries(
            s,
            open,
            x,
            i + 1,
            put_all(next),
        ));
    }
}

/// What stands in braces is an object with an entry for each piece between its
/// commas: what stands before the colon is the key, without quotes, and what
/// stands behind it the value. A key that comes again gets the later value.
pub proof fn what_stands_in_braces_is_an_object(s: Stores, open: Seq<Text>, x: Text)
    requires
        !x.contains('"'),
        !x.contains('{'),
        !x.contains('}'),
        forall|j: int|
            0 <= j < pieces(x, ',').len() ==> key_colon(trim(#[trigger] pieces(x, ',')[j])) is Some
                && inline_value(s, open, piece_value(x, j)).1 == open,
    ensures
        inline_value(s, open, seq!['{'] + x + seq!['}']) == (
            Val::Object(put_all(read_entries(s, open, x, pieces(x, ',').len() as int))),
            open,
        ),
{
    let t = seq!['{'] + x + seq!['}'];
    let e = x.len() as int + 1;
    assert(t[0] == '{' && t[e] == '}');
    assert(t.last() == '}');
    lemma_trim_of_trim(t);
    lemma_in_braces(x, e);
    lemma_place_start(t);
    assert(closes_brace(t, e));
    assert(opens_brace(t, 0));
    assert forall|k: int| 0 <= k < e implies !#[trigger] closes_brace(t, k) by {
        if k > 0 {
            assert(t[k] == x[k - 1]);
            assert(x.contains(x[k - 1]));
        }
    }
    assert forall|k: int| 0 < k < e implies !#[trigger] opens_brace(t, k) by {
        assert(t[k] == x[k - 1]);
        assert(x.contains(x[k - 1]));
    }
    the_braces_that_match_are_found(t, 0, e);
    assert(t.subrange(1, e) =~= x);
    let none = read_entries(s, open, x, 0);
    assert(put_all(none) =~= seq![]);
    lemma_entries_from(s, open, x, 0);
}

} // verus!
