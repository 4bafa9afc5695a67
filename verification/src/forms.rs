//! What the forms of a document stand for: lines that say nothing, definitions,
//! references, rows and values between delimiters.

use vstd::prelude::*;
use crate::decoder::{decode_step, indent_for, is_minified, row, Setting};
use crate::lines::{
    define, definition_kind, depth_behind, depth_of, is_silent, levels_opened, read_lines,
    read_segments, segments, word_end, Known, Line, Segment,
};
use crate::overrides::overridden;
use crate::readback::{is_trim, lemma_trim_of_trim};
use crate::scan::pieces;
use crate::schema_registry::{defined, prefix_of, resolved, store, DefType, Stores};
use crate::text::{
    find, find_text, indentation, is_space, lemma_find_at, lemma_find_from, lemma_find_text, lines,
    split_text, starts_with, trim, trim_end, Text,
};
use crate::tokens::{
    choices, delimited, inline_value, is_reference, primitive, reference, reference_head,
    reference_parts,
};
use crate::value::{entry, has_key, key_index, lemma_key_index, lemma_put, put, Entries, Val};

verus! {

// ---------------------------------------------------------------------------
// Lines that say nothing

/// Whether a line is blank, a comment or a directive.
pub open spec fn says_nothing(t: Text) -> bool {
    let u = trim(t);
    ||| u.len() == 0
    ||| u[0] == '#'
    ||| u.len() >= 2 && u[0] == '@' && u[1] == '@'
    ||| u.len() >= 5 && u.subrange(0, 5) == seq!['@', 'u', 's', 'e', ' ']
}

/// A line that says nothing is silent.
proof fn lemma_silent(t: Text)
    requires
        says_nothing(t),
    ensures
        is_silent(trim(t)),
{
    reveal_strlit("@@");
    reveal_strlit("@use ");
    let u = trim(t);
    if u.len() >= 2 && u[0] == '@' && u[1] == '@' {
        assert(u.subrange(0, 2) =~= "@@"@);
    }
    assert("@use "@ =~= seq!['@', 'u', 's', 'e', ' ']);
}

/// Lines behind one that was put in.
proof fn lemma_behind(
    k: Known,
    ls: Seq<Text>,
    j: int,
    t: Text,
    indent: nat,
    i: int,
    done: Seq<Line>,
)
    requires
        0 <= j <= i <= ls.len(),
    ensures
        read_lines(k, ls.insert(j, t), indent, i + 1, done) == read_lines(k, ls, indent, i, done),
    decreases ls.len() - i,
{
    if i < ls.len() {
        let u = trim(ls[i]);
        assert(ls.insert(j, t)[i + 1] == ls[i]);
        lemma_behind(k, ls, j, t, indent, i + 1, done);
        if definition_kind(u) is Some {
            lemma_behind(define(k, u, definition_kind(u)->0), ls, j, t, indent, i + 1, done);
        }
        let line = Line {
            depth: depth_of(indentation(ls[i]), indent),
            text: u,
        };
        lemma_behind(k, ls, j, t, indent, i + 1, done.push(line));
    }
}

/// Lines before one that was put in.
proof fn lemma_before(
    k: Known,
    ls: Seq<Text>,
    j: int,
    t: Text,
    indent: nat,
    i: int,
    done: Seq<Line>,
)
    requires
        0 <= i <= j <= ls.len(),
        says_nothing(t),
    ensures
        read_lines(k, ls.insert(j, t), indent, i, done) == read_lines(k, ls, indent, i, done),
    decreases j - i,
{
    let all = ls.insert(j, t);
    if i < j {
        let u = trim(ls[i]);
        assert(all[i] == ls[i]);
        lemma_before(k, ls, j, t, indent, i + 1, done);
        if definition_kind(u) is Some {
            lemma_before(define(k, u, definition_kind(u)->0), ls, j, t, indent, i + 1, done);
        }
        let line = Line {
            depth: depth_of(indentation(ls[i]), indent),
            text: u,
        };
        lemma_before(k, ls, j, t, indent, i + 1, done.push(line));
    } else {
        assert(all[j] == t);
        lemma_silent(t);
        lemma_behind(k, ls, j, t, indent, j, done);
    }
}

/// Blank lines, comments and directives, wherever they stand, change neither the
/// lines that are kept nor what is defined.
pub proof fn what_says_nothing_is_left_out(
    k: Known,
    ls: Seq<Text>,
    j: int,
    t: Text,
    indent: nat,
)
    requires
        0 <= j <= ls.len(),
        says_nothing(t),
    ensures
        read_lines(k, ls.insert(j, t), indent, 0, seq![]) == read_lines(k, ls, indent, 0, seq![]),
{
    lemma_before(k, ls, j, t, indent, 0, seq![]);
}

/// A decoder with a set indent reads the same value with and without a blank
/// line, a comment or a directive, wherever it stands.
pub proof fn a_document_ignores_what_says_nothing(
    d: Setting,
    x: Text,
    y: Text,
    j: int,
    t: Text,
)
    requires
        !d.auto,
        !is_minified(x),
        !is_minified(y),
        0 <= j <= lines(x).len(),
        lines(y) == lines(x).insert(j, t),
        says_nothing(t),
    ensures
        decode_step(d, y) == decode_step(d, x),
{
    what_says_nothing_is_left_out(d.known, lines(x), j, t, d.indent);
}

// ---------------------------------------------------------------------------
// Definitions

/// The word before the colon of a definition.
pub open spec fn word(d: DefType) -> Text {
    match d {
        DefType::Schema => seq!['s'],
        DefType::Response => seq!['r'],
        DefType::Security => seq!['s', 'e', 'c'],
    }
}

/// The end of the first word.
proof fn lemma_first_word(t: Text, n: int, i: int)
    requires
        0 <= i <= n < t.len(),
        forall|j: int| 0 <= j < n ==> !is_space(#[trigger] t[j]),
        is_space(t[n]),
    ensures
        word_end(t, i) == n,
    decreases n - i,
{
    if i < n {
        lemma_first_word(t, n, i + 1);
    }
}

/// The line of a definition.
#[verifier::rlimit(40)]
proof fn lemma_definition(d: DefType, rest: Text)
    ensures
        definition_kind(word(d) + seq![':'] + rest) == Some(d),
        !is_silent(word(d) + seq![':'] + rest),
        prefix_of(d) == word(d),
{
    reveal_strlit("s");
    reveal_strlit("r");
    reveal_strlit("sec");
    reveal_strlit("s:");
    reveal_strlit("r:");
    reveal_strlit("sec:");
    reveal_strlit("@@");
    reveal_strlit("@use ");
    let t = word(d) + seq![':'] + rest;
    assert(prefix_of(d) =~= word(d));
    if starts_with(t, "@@"@) {
        assert(t.subrange(0, 2)[0] == t[0]);
    }
    if starts_with(t, "@use "@) {
        assert(t.subrange(0, 5)[0] == t[0]);
    }
    match d {
        DefType::Schema => {
            assert(t.subrange(0, 2) =~= "s:"@);
        },
        DefType::Response => {
            assert(t[0] == 'r');
            assert(t.subrange(0, 2) =~= "r:"@);
            if starts_with(t, "s:"@) {
                assert(t.subrange(0, 2)[0] == 's');
            }
        },
        DefType::Security => {
            assert(t[1] == 'e');
            assert(t[0] == 's');
            assert(t.subrange(0, 4) =~= "sec:"@);
            if starts_with(t, "s:"@) {
                assert(t.subrange(0, 2)[1] == ':');
            }
            if starts_with(t, "r:"@) {
                assert(t.subrange(0, 2)[0] == 'r');
            }
        },
    }
}

/// A line with the word of a kind, a colon, a name and a value defines the value
/// under that name, and is no line of the document itself.
#[verifier::rlimit(40)]
pub proof fn a_definition_defines(
    k: Known,
    ls: Seq<Text>,
    indent: nat,
    i: int,
    done: Seq<Line>,
    d: DefType,
    name: Text,
    body: Text,
)
    requires
        0 <= i < ls.len(),
        name.len() > 0,
        forall|j: int| 0 <= j < name.len() ==> !is_space(#[trigger] name[j]),
        body.len() > 0,
        !is_space(body[0]),
        !is_space(body.last()),
        trim(ls[i]) == word(d) + seq![':'] + name + seq![' '] + body,
    ensures
        ({
            let (v, open) = inline_value(k.stores, k.open, body);
            let known = Known { stores: defined(k.stores, d, name, v), open };
            read_lines(k, ls, indent, i, done) == read_lines(known, ls, indent, i + 1, done)
        }),
{
    let rest = name + seq![' '] + body;
    let t = trim(ls[i]);
    assert(t =~= word(d) + seq![':'] + rest);
    lemma_definition(d, rest);
    assert(t.subrange(word(d).len() as int + 1, t.len() as int) =~= rest);
    assert(rest[0] == name[0]);
    assert(rest.last() == body.last());
    lemma_trim_of_trim(rest);
    let n = name.len() as int;
    assert forall|j: int| 0 <= j < n implies !is_space(#[trigger] rest[j]) by {
        assert(rest[j] == name[j]);
    }
    assert(rest[n] == ' ');
    lemma_first_word(rest, n, 0);
    assert(rest.subrange(0, n) =~= name);
    assert(rest.subrange(n, rest.len() as int) =~= seq![' '] + body);
    lemma_trim_of_trim(body);
}

// ---------------------------------------------------------------------------
// References

/// A reference to a definition.
pub open spec fn refers(d: DefType, name: Text) -> Text {
    seq!['@'] + word(d) + seq![':'] + name
}

/// Whether `name` can stand in a reference.
pub open spec fn is_name(name: Text) -> bool {
    forall|j: int| 0 <= j < name.len() ==> !is_space(#[trigger] name[j]) && name[j] != '{'
}

/// What a reference says.
#[verifier::rlimit(40)]
proof fn lemma_refers(d: DefType, name: Text)
    requires
        is_name(name),
    ensures
        is_trim(refers(d, name)),
        refers(d, name).len() > 0,
        refers(d, name)[0] == '@',
        forall|j: int|
            0 <= j < refers(d, name).len() ==> !is_space(#[trigger] refers(d, name)[j]) && refers(
                d,
                name,
            )[j] != '{',
        reference_parts(refers(d, name)) == Some((d, name)),
{
    reveal_strlit("s");
    reveal_strlit("r");
    reveal_strlit("sec");
    let t = refers(d, name);
    let w = word(d);
    let n = w.len() as int;
    assert forall|j: int| 0 <= j < t.len() implies !is_space(#[trigger] t[j]) && t[j] != '{' by {
        if j >= n + 2 {
            assert(t[j] == name[j - n - 2]);
        }
    }
    lemma_trim_of_trim(t);
    let rest = t.subrange(1, t.len() as int);
    assert(rest[n] == ':');
    assert forall|j: int| 0 <= j < n implies rest[j] != ':' by {
        assert(rest[j] == w[j]);
    }
    lemma_find_at(rest, ':', n);
    assert(rest.subrange(0, n) =~= w);
    assert(rest.subrange(n + 1, rest.len() as int) =~= name);
    if name.len() > 0 {
        assert(!is_space(name[0]));
        assert(!is_space(name.last()));
        lemma_trim_of_trim(name);
    } else {
        assert(trim(name) =~= name);
    }
    assert("s"@ =~= seq!['s']);
    assert("r"@ =~= seq!['r']);
    assert("sec"@ =~= seq!['s', 'e', 'c']);
    assert(seq!['s'] != seq!['r']) by {
        assert(seq!['s'][0] != seq!['r'][0]);
    }
    assert(seq!['s', 'e', 'c'].len() != seq!['s'].len());
}

/// A text that begins as a reference is one.
proof fn lemma_is_reference(d: DefType, name: Text, more: Text)
    ensures
        is_reference(refers(d, name) + more),
{
    reveal_strlit("@s:");
    reveal_strlit("@r:");
    reveal_strlit("@sec:");
    let t = refers(d, name) + more;
    match d {
        DefType::Schema => {
            assert(t.subrange(0, 3) =~= "@s:"@);
        },
        DefType::Response => {
            assert(t.subrange(0, 3) =~= "@r:"@);
        },
        DefType::Security => {
            assert(t.subrange(0, 5) =~= "@sec:"@);
        },
    }
}

/// A text that begins with `@` is no empty array and no empty object.
proof fn lemma_at(t: Text)
    requires
        t.len() > 0,
        t[0] == '@',
    ensures
        t != "[]"@,
        t != "{}"@,
{
    reveal_strlit("[]");
    reveal_strlit("{}");
}

/// A text without spaces has none around a bar.
proof fn lemma_no_bar(t: Text)
    requires
        forall|j: int| 0 <= j < t.len() ==> !is_space(#[trigger] t[j]),
    ensures
        find_text(t, " | "@, 0) is None,
{
    reveal_strlit(" | ");
    lemma_find_text(t, " | "@, 0);
    if find_text(t, " | "@, 0) is Some {
        let k = find_text(t, " | "@, 0)->0;
        assert(t.subrange(k, k + 3)[0] == t[k]);
        assert(is_space(' '));
    }
}

/// A reference stands for what its definition is resolved to, and for its own
/// text where it has none.
pub proof fn a_reference_stands_for_its_definition(
    s: Stores,
    open: Seq<Text>,
    d: DefType,
    name: Text,
)
    requires
        is_name(name),
    ensures
        inline_value(s, open, refers(d, name)) == (
            match resolved(s, open, d, name) {
                Ok(v) => v,
                Err(_) => Val::Str(refers(d, name)),
            },
            open,
        ),
{
    let t = refers(d, name);
    lemma_refers(d, name);
    lemma_trim_of_trim(t);
    lemma_is_reference(d, name, seq![]);
    assert(t + seq![] =~= t);
    lemma_at(t);
    lemma_no_bar(t);
    lemma_find_from(t, '{', 0);
    assert(find(t, '{') is None);
    assert(trim_end(t) == t);
    assert(reference_head(t) == t);
    assert(inline_value(s, open, t) == primitive(s, open, t));
    assert(primitive(s, open, t) == reference(s, open, t));
}

/// What stands in braces behind a reference is laid over what the reference
/// stands for.
#[verifier::rlimit(40)]
pub proof fn a_reference_takes_overrides(
    s: Stores,
    open: Seq<Text>,
    d: DefType,
    name: Text,
    more: Text,
)
    requires
        is_name(name),
        more.len() > 0,
        more[0] == '{',
        !is_space(more.last()),
        forall|k: int|
            #![trigger more[k]]
            0 <= k && k + 2 < more.len() ==> !(more[k] == ' ' && more[k + 1] == '|' && more[k + 2]
                == ' '),
    ensures
        ({
            let t = refers(d, name) + seq![' '] + more;
            let (over, left) = inline_value(s, open, more);
            inline_value(s, open, t) == (
                match resolved(s, left, d, name) {
                    Ok(base) => overridden(base, over),
                    Err(_) => Val::Str(t),
                },
                left,
            )
        }),
{
    let h = refers(d, name);
    let t = h + seq![' '] + more;
    lemma_refers(d, name);
    assert(t[0] == h[0]);
    assert(t.last() == more.last());
    assert(is_trim(t));
    lemma_trim_of_trim(t);
    lemma_is_reference(d, name, seq![' '] + more);
    assert(h + (seq![' '] + more) =~= t);
    lemma_at(t);
    let b = h.len() as int + 1;
    assert(t[b] == '{');
    assert forall|j: int| 0 <= j < b implies t[j] != '{' by {
        if j < h.len() {
            assert(t[j] == h[j]);
        }
    }
    lemma_find_at(t, '{', b);
    assert(t.subrange(b, t.len() as int) =~= more);
    let front = t.subrange(0, b);
    assert(front.subrange(0, front.len() - 1) =~= h);
    lemma_trim_of_trim(h);
    assert(is_space(' '));
    assert(front.last() == ' ');
    assert(trim_end(h) == h);
    assert(trim_end(front) == h);
    assert(reference_head(t) == h);
    reveal_strlit(" | ");
    lemma_find_text(t, " | "@, 0);
    if find_text(t, " | "@, 0) is Some {
        let k = find_text(t, " | "@, 0)->0;
        let p = t.subrange(k, k + 3);
        assert(p[0] == t[k] && p[1] == t[k + 1] && p[2] == t[k + 2]);
        if k < h.len() {
            assert(t[k] == h[k]);
            assert(is_space(t[k]));
        } else if k == h.len() {
            assert(t[k + 1] == '{');
        } else {
            assert(more[k - b] == t[k]);
            assert(more[k - b + 1] == t[k + 1]);
            assert(more[k - b + 2] == t[k + 2]);
        }
    }
    assert(inline_value(s, open, t) == primitive(s, open, t));
    assert(primitive(s, open, t) == reference(s, open, t));
}

/// What an alternative adds to the choices.
pub open spec fn choice(s: Stores, open: Seq<Text>, d: DefType, name: Text) -> Seq<Val> {
    match resolved(s, open, d, name) {
        Ok(v) => seq![v],
        Err(_) => seq![],
    }
}

/// References with a bar between them stand for a choice between what they stand
/// for, in their order; those without a definition are left out.
#[verifier::rlimit(40)]
pub proof fn references_between_bars_are_a_choice(
    s: Stores,
    open: Seq<Text>,
    d: DefType,
    a: Text,
    e: DefType,
    b: Text,
)
    requires
        is_name(a),
        is_name(b),
    ensures
        inline_value(s, open, refers(d, a) + seq![' ', '|', ' '] + refers(e, b)) == (
            Val::Object(
                seq![("oneOf"@, Val::Array(choice(s, open, d, a) + choice(s, open, e, b)))],
            ),
            open,
        ),
{
    reveal_with_fuel(split_text, 3);
    reveal_with_fuel(choices, 4);
    reveal_strlit(" | ");
    let x = refers(d, a);
    let y = refers(e, b);
    let bar = seq![' ', '|', ' '];
    let t = x + bar + y;
    lemma_refers(d, a);
    lemma_refers(e, b);
    assert(" | "@ =~= bar);
    assert(t[0] == x[0]);
    assert(t.last() == y.last());
    assert(!is_space(y[y.len() - 1]));
    lemma_trim_of_trim(t);
    lemma_is_reference(d, a, bar + y);
    assert(x + (bar + y) =~= t);
    lemma_at(t);
    let n = x.len() as int;
    lemma_bar_at(x, y, 0);
    assert(t.subrange(0, n) =~= x);
    assert(t.subrange(n + 3, t.len() as int) =~= y);
    lemma_no_bar(y);
    assert(split_text(y, bar) == seq![y]);
    assert(split_text(t, bar) =~= seq![x, y]);
    let parts = split_text(t, bar);
    assert(parts[0] == x && parts[1] == y);
    let none = Seq::<Val>::empty();
    let first = choice(s, open, d, a);
    assert(choices(s, open, parts, 0, none) == choices(s, open, parts, 1, none + first)) by {
        assert(none + first =~= first);
        if first.len() == 1 {
            assert(none.push(first[0]) =~= first);
        }
    }
    let both = first + choice(s, open, e, b);
    assert(choices(s, open, parts, 1, none + first) == choices(s, open, parts, 2, both)) by {
        assert(none + first =~= first);
        let last = choice(s, open, e, b);
        if last.len() == 1 {
            assert(first.push(last[0]) =~= both);
        } else {
            assert(first =~= both);
        }
    }
    assert(inline_value(s, open, t) == primitive(s, open, t));
    assert(primitive(s, open, t) == reference(s, open, t));
}

/// The first bar.
proof fn lemma_bar_at(x: Text, y: Text, i: int)
    requires
        forall|j: int| 0 <= j < x.len() ==> !is_space(#[trigger] x[j]),
        0 <= i <= x.len(),
    ensures
        find_text(x + seq![' ', '|', ' '] + y, seq![' ', '|', ' '], i) == Some(x.len() as int),
    decreases x.len() - i,
{
    let bar = seq![' ', '|', ' '];
    let t = x + bar + y;
    if i < x.len() {
        lemma_bar_at(x, y, i + 1);
        assert(t.subrange(i, i + 3)[0] == x[i]);
        assert(is_space(' '));
    } else {
        assert(t.subrange(i, i + 3) =~= bar);
    }
}

// ---------------------------------------------------------------------------
// Rows and values between delimiters

/// Entries for the first fields of a row.
pub open spec fn cells(fields: Seq<Text>, values: Seq<Val>, n: int) -> Entries {
    Seq::new(
        n as nat,
        |i: int|
            (
                fields[i],
                if i < values.len() {
                    values[i]
                } else {
                    Val::Null
                },
            ),
    )
}

/// A row from some field on.
proof fn lemma_row_from(fields: Seq<Text>, values: Seq<Val>, k: int)
    requires
        fields.no_duplicates(),
        0 <= k <= fields.len(),
    ensures
        row(fields, values, k, cells(fields, values, k)) == cells(
            fields,
            values,
            fields.len() as int,
        ),
    decreases fields.len() - k,
{
    if k < fields.len() {
        let done = cells(fields, values, k);
        lemma_key_index(done, fields[k]);
        if has_key(done, fields[k]) {
            let j = key_index(done, fields[k]);
            assert(fields[j] == fields[k]);
        }
        let v = if k < values.len() {
            values[k]
        } else {
            Val::Null
        };
        assert(put(done, fields[k], v) =~= cells(fields, values, k + 1));
        lemma_row_from(fields, values, k + 1);
    }
}

/// A row has an entry for each field, in their order, with the value in the same
/// place; `null` where there is none. Values without a field are left out.
pub proof fn a_row_has_a_value_for_each_field(fields: Seq<Text>, values: Seq<Val>)
    requires
        fields.no_duplicates(),
    ensures
        row(fields, values, 0, seq![]) == Seq::new(
            fields.len(),
            |i: int|
                (
                    fields[i],
                    if i < values.len() {
                        values[i]
                    } else {
                        Val::Null
                    },
                ),
        ),
{
    assert(cells(fields, values, 0) =~= seq![]);
    lemma_row_from(fields, values, 0);
    assert(cells(fields, values, fields.len() as int) =~= Seq::new(
        fields.len(),
        |i: int|
            (
                fields[i],
                if i < values.len() {
                    values[i]
                } else {
                    Val::Null
                },
            ),
    ));
}

/// Values from some piece on.
proof fn lemma_pieces_from(s: Stores, open: Seq<Text>, x: Text, d: char, i: int, done: Seq<Val>)
    requires
        0 <= i <= pieces(x, d).len(),
        done.len() == i,
        forall|j: int| 0 <= j < pieces(x, d).len() ==> !is_reference(trim(#[trigger] pieces(x, d)[j])),
        forall|j: int| 0 <= j < i ==> #[trigger] done[j] == primitive(s, open, pieces(x, d)[j]).0,
    ensures
        delimited(s, open, x, d, i, done) == (
            pieces(x, d).map_values(|p: Text| primitive(s, open, p).0),
            open,
        ),
    decreases pieces(x, d).len() - i,
{
    if i < pieces(x, d).len() {
        let p = pieces(x, d)[i];
        assert(!is_reference(trim(p)));
        assert(primitive(s, open, p).1 == open);
        lemma_pieces_from(s, open, x, d, i + 1, done.push(primitive(s, open, p).0));
    } else {
        assert(done =~= pieces(x, d).map_values(|p: Text| primitive(s, open, p).0));
    }
}

/// Values between delimiters are those of the pieces, each by itself, in their
/// order.
pub proof fn values_are_read_piece_by_piece(s: Stores, open: Seq<Text>, x: Text, d: char)
    requires
        forall|j: int| 0 <= j < pieces(x, d).len() ==> !is_reference(trim(#[trigger] pieces(x, d)[j])),
    ensures
        delimited(s, open, x, d, 0, seq![]) == (
            pieces(x, d).map_values(|p: Text| primitive(s, open, p).0),
            open,
        ),
{
    lemma_pieces_from(s, open, x, d, 0, seq![]);
}
// ---------------------------------------------------------------------------
// What a decoder knows

/// Whether all that `s` defines `t` defines too.
pub open spec fn knows_all(s: Stores, t: Stores) -> bool {
    forall|d: DefType, n: Text|
        #![trigger has_key(store(t, d), n)]
        has_key(store(s, d), n) ==> has_key(store(t, d), n)
}

/// What is defined stays known when more is.
proof fn lemma_knows_more(k: Known, t: Text, d: DefType)
    ensures
        knows_all(k.stores, define(k, t, d).stores),
{
    let s = k.stores;
    let r = define(k, t, d).stores;
    assert forall|e: DefType, n: Text|
        #![trigger has_key(store(r, e), n)]
        has_key(store(s, e), n) implies has_key(store(r, e), n) by {
        let body = trim(t.subrange(prefix_of(d).len() as int + 1, t.len() as int));
        let w = word_end(body, 0);
        let name = body.subrange(0, w);
        if e == d {
            lemma_put(store(s, d), name, defined_value(k, body, w), n);
        }
    }
}

/// The value that a definition gives.
pub open spec fn defined_value(k: Known, body: Text, w: int) -> Val {
    let text = trim(body.subrange(w, body.len() as int));
    if text.len() == 0 {
        Val::Object(seq![])
    } else {
        inline_value(k.stores, k.open, text).0
    }
}

/// What is known once lines have been read.
proof fn lemma_known_lines(k: Known, ls: Seq<Text>, indent: nat, i: int, done: Seq<Line>)
    requires
        0 <= i <= ls.len(),
    ensures
        knows_all(k.stores, read_lines(k, ls, indent, i, done).0.stores),
    decreases ls.len() - i,
{
    if i < ls.len() {
        let t = trim(ls[i]);
        if is_silent(t) {
            lemma_known_lines(k, ls, indent, i + 1, done);
        } else if definition_kind(t) is Some {
            let d = definition_kind(t)->0;
            lemma_knows_more(k, t, d);
            lemma_known_lines(define(k, t, d), ls, indent, i + 1, done);
        } else {
            let line = Line { depth: depth_of(indentation(ls[i]), indent), text: t };
            lemma_known_lines(k, ls, indent, i + 1, done.push(line));
        }
    }
}

/// What is known once segments have been read.
proof fn lemma_known_segments(k: Known, g: Seq<Segment>, i: int, depth: nat, done: Seq<Line>)
    requires
        0 <= i <= g.len(),
    ensures
        knows_all(k.stores, read_segments(k, g, i, depth, done).0.stores),
    decreases g.len() - i,
{
    if i < g.len() {
        let t = g[i].text;
        let next = depth_behind(depth, g[i].semis);
        if is_silent(t) {
            lemma_known_segments(k, g, i + 1, next, done);
        } else if definition_kind(t) is Some {
            let d = definition_kind(t)->0;
            lemma_knows_more(k, t, d);
            lemma_known_segments(define(k, t, d), g, i + 1, next, done);
        } else {
            lemma_known_segments(
                k,
                g,
                i + 1,
                depth_behind(depth + levels_opened(t), g[i].semis),
                done.push(Line { depth: depth as int, text: t }),
            );
        }
    }
}

/// What a decoder has learned from one document it still knows behind the next.
pub proof fn definitions_stay_known(d: Setting, input: Text)
    ensures
        knows_all(d.known.stores, decode_step(d, input).1.known.stores),
{
    let indent = indent_for(d, input);
    if is_minified(input) {
        lemma_known_segments(d.known, segments(input), 0, 0, seq![]);
    } else {
        lemma_known_lines(d.known, lines(input), indent, 0, seq![]);
    }
}

} // verus!
