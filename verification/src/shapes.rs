//! What documents look like: which form a value takes, and how lines, rows and
//! names are written.

use vstd::prelude::*;
use crate::encoder::{
    concatenated, definition_lines, encoded, field_texts, holds_delimiter, inline_fields,
    inline_items, inline_text, is_plain_key, is_position, is_row, is_safe, joined, key_text,
    last_name, layout, matching_schema, primitive_text, primitive_texts, quoted, row_lines,
    row_texts, schema_name, spaces, stores_for, string_text, table_fields, trim_char, unsafe_in_key,
    unsafe_in_value, whole_text, with_definitions, without_text, written_array, written_entries,
    written_entry, written_item, written_items, written_value, Manner, Style,
};
use crate::lines::Line;
use crate::number::{integer_text, is_digit, lemma_digits_text, length_of};
use crate::scan::escape;
use crate::schema_registry::{defined, DefType, Stores};
use crate::text::{find, find_text, lemma_find_at, lemma_find_from, split, split_text, Text};
use crate::value::{distinct, entry, is_simple, keys, lemma_entry_found, Entries, Val};

verus! {

// ---------------------------------------------------------------------------
// Quotes

/// A string stands without quotes exactly where it is not empty, none of the
/// words for truth values and nothing, begins with no sign, digit or point, and
/// holds no delimiter and no character with a meaning.
pub proof fn a_string_stands_in_quotes_where_it_must(s: Text, d: char)
    ensures
        string_text(s, d) == s <==> {
            &&& s.len() > 0
            &&& s != "true"@
            &&& s != "false"@
            &&& s != "null"@
            &&& !('0' <= s[0] <= '9')
            &&& s[0] != '+' && s[0] != '-' && s[0] != '.'
            &&& !holds_delimiter(s, d)
            &&& !s.contains(' ') && !s.contains('\t') && !s.contains(':') && !s.contains('"')
            &&& !s.contains('\\') && !s.contains(';') && !s.contains('@') && !s.contains('#')
            &&& !s.contains('{') && !s.contains('}') && !s.contains('[') && !s.contains(']')
        },
        string_text(s, d) != s ==> string_text(s, d) == quoted(s),
{
    if string_text(s, d) == s {
        if quoted(s) == s {
            assert(s[0] == '"');
            lemma_longer(s);
        }
        assert(is_safe(s, d));
        assert forall|c: char| unsafe_in_value(c) implies !s.contains(c) by {
            if s.contains(c) {
                let i = s.index_of(c);
                assert(unsafe_in_value(s[i]));
            }
        }
        assert(unsafe_in_value(' ') && unsafe_in_value('\t'));
        assert(unsafe_in_value(':') && unsafe_in_value('"'));
        assert(unsafe_in_value('\\') && unsafe_in_value(';'));
        assert(unsafe_in_value('@') && unsafe_in_value('#'));
        assert(unsafe_in_value('{') && unsafe_in_value('}'));
        assert(unsafe_in_value('[') && unsafe_in_value(']'));
    }
}

/// A text in quotes is longer than the text.
proof fn lemma_longer(s: Text)
    ensures
        quoted(s).len() >= s.len() + 2,
{
    lemma_escape_len(s);
}

/// An escaped text is no shorter than the text.
proof fn lemma_escape_len(s: Text)
    ensures
        escape(s).len() >= s.len(),
    decreases s.len(),
{
    if s.len() > 0 {
        lemma_escape_len(s.subrange(1, s.len() as int));
    }
}

/// A key stands without quotes exactly where it is not empty and holds no comma,
/// no white space and no character with a meaning.
pub proof fn a_key_stands_in_quotes_where_it_must(s: Text)
    ensures
        key_text(s) == s <==> {
            &&& s.len() > 0
            &&& !s.contains(' ') && !s.contains('\t') && !s.contains(':') && !s.contains('"')
            &&& !s.contains('\\') && !s.contains(';') && !s.contains('@') && !s.contains('#')
            &&& !s.contains('{') && !s.contains('}') && !s.contains('[') && !s.contains(']')
            &&& !s.contains(',')
        },
        key_text(s) != s ==> key_text(s) == quoted(s),
{
    if key_text(s) == s {
        if quoted(s) == s {
            lemma_longer(s);
        }
        assert(is_plain_key(s));
        assert forall|c: char| unsafe_in_key(c) implies !s.contains(c) by {
            if s.contains(c) {
                let i = s.index_of(c);
                assert(unsafe_in_key(s[i]));
            }
        }
        assert(unsafe_in_key(' ') && unsafe_in_key('\t'));
        assert(unsafe_in_key(':') && unsafe_in_key('"'));
        assert(unsafe_in_key('\\') && unsafe_in_key(';'));
        assert(unsafe_in_key('@') && unsafe_in_key('#'));
        assert(unsafe_in_key('{') && unsafe_in_key('}'));
        assert(unsafe_in_key('[') && unsafe_in_key(']'));
        assert(unsafe_in_key(','));
    }
}

// ---------------------------------------------------------------------------
// Rows

/// Texts from some position on, with one more behind them.
proof fn lemma_joined_from(p: Seq<Text>, x: Text, sep: Text, i: int)
    requires
        0 <= i <= p.len(),
    ensures
        joined(p.push(x), sep, i) == joined(p, sep, i) + (if p.len() > 0 {
            sep
        } else {
            seq![]
        }) + x,
    decreases p.len() - i,
{
    let q = p.push(x);
    let mid: Text = if p.len() > 0 {
        sep
    } else {
        seq![]
    };
    if i < p.len() {
        lemma_joined_from(p, x, sep, i + 1);
        let head = (if i > 0 {
            sep
        } else {
            seq![]
        }) + p[i];
        assert(q[i] == p[i]);
        assert(head + (joined(p, sep, i + 1) + mid + x) =~= (head + joined(p, sep, i + 1)) + mid + x);
    } else {
        assert(q[i] == x);
        assert(joined(q, sep, i + 1) =~= seq![]);
        assert(joined(p, sep, i) =~= seq![]);
        assert(joined(q, sep, i) =~= mid + x);
        assert(seq![] + mid + x =~= mid + x);
    }
}

/// Texts on a line stand one behind the other, with the separator between each
/// two.
pub proof fn texts_are_joined_in_order(p: Seq<Text>, x: Text, sep: Text)
    ensures
        joined(seq![], sep, 0) == Seq::<char>::empty(),
        joined(seq![x], sep, 0) == x,
        p.len() > 0 ==> joined(p.push(x), sep, 0) == joined(p, sep, 0) + sep + x,
{
    lemma_joined_from(p, x, sep, 0);
    let none = Seq::<Text>::empty();
    lemma_joined_from(none, x, sep, 0);
    assert(none.push(x) =~= seq![x]);
    assert(joined(none, sep, 0) + seq![] + x =~= x);
}

/// An array of primitives stands on one line: the number of its items in brackets
/// behind the key, a colon, and the items with the delimiter and a space between
/// them.
pub proof fn primitives_stand_on_one_line(
    e: Style,
    key: Text,
    keyed: bool,
    a: Seq<Val>,
    depth: int,
    deep: int,
)
    requires
        a.len() > 0,
        forall|i: int| 0 <= i < a.len() ==> is_simple(#[trigger] a[i]),
    ensures
        written_array(e, key, keyed, a, depth, deep) == seq![
            Line {
                depth,
                text: key + seq!['['] + integer_text(a.len() as int) + seq![']', ':', ' '] + joined(
                    Seq::new(a.len(), |i: int| primitive_text(a[i], e.delimiter)),
                    seq![e.delimiter, ' '],
                    0,
                ),
            },
        ],
{
    let h = key + seq!['['] + integer_text(a.len() as int);
    assert(primitive_texts(a, e.delimiter) =~= Seq::new(
        a.len(),
        |i: int| primitive_text(a[i], e.delimiter),
    ));
    assert(h + seq![']'] + seq![':', ' '] =~= h + seq![']', ':', ' ']);
}

/// Whether the items are objects with the same keys and only primitives under
/// them.
pub open spec fn is_table(a: Seq<Val>) -> bool {
    &&& a.len() > 0
    &&& forall|i: int| 0 <= i < a.len() ==> (#[trigger] a[i]) is Object
    &&& a[0]->Object_0.len() > 0
    &&& forall|i: int|
        0 <= i < a.len() ==> (#[trigger] a[i])->Object_0.len() == a[0]->Object_0.len()
    &&& forall|i: int, k: int|
        0 <= i < a.len() && 0 <= k < a[0]->Object_0.len() ==> (#[trigger] entry(
            a[i]->Object_0,
            a[0]->Object_0[k].0,
        ) matches Some(x) && is_simple(x))
}

/// The rows of a table.
proof fn lemma_rows(a: Seq<Val>, f: Seq<Text>, d: char, depth: int, i: int)
    requires
        0 <= i <= a.len(),
        forall|j: int| 0 <= j < a.len() ==> (#[trigger] a[j]) is Object,
    ensures
        row_lines(a, f, d, depth, i).len() == a.len() - i,
        forall|j: int|
            i <= j < a.len() ==> #[trigger] row_lines(a, f, d, depth, i)[j - i] == (Line {
                depth,
                text: joined(row_texts(a[j]->Object_0, f, d), seq![d, ' '], 0),
            }),
    decreases a.len() - i,
{
    if i < a.len() {
        lemma_rows(a, f, d, depth, i + 1);
        let rest = row_lines(a, f, d, depth, i + 1);
        let all = row_lines(a, f, d, depth, i);
        assert(a[i] is Object);
        let one = Line { depth, text: joined(row_texts(a[i]->Object_0, f, d), seq![d, ' '], 0) };
        assert(all =~= seq![one] + rest);
        assert forall|j: int| i <= j < a.len() implies #[trigger] all[j - i] == (Line {
            depth,
            text: joined(row_texts(a[j]->Object_0, f, d), seq![d, ' '], 0),
        }) by {
            if j > i {
                assert(all[j - i] == rest[j - (i + 1)]);
            }
        }
    }
}

/// An array of objects with the same keys and only primitives under them is a
/// table: a header with the number of rows and the keys, and one line for each
/// object with what stands under each key, in the order of the keys of the first.
#[verifier::rlimit(40)]
pub proof fn objects_with_the_same_keys_are_a_table(
    e: Style,
    key: Text,
    keyed: bool,
    a: Seq<Val>,
    depth: int,
    deep: int,
)
    requires
        is_table(a),
        distinct(a[0]->Object_0),
    ensures
        ({
            let f = a[0]->Object_0;
            let ls = written_array(e, key, keyed, a, depth, deep);
            &&& ls.len() == a.len() + 1
            &&& ls[0] == Line {
                depth,
                text: key + seq!['['] + integer_text(a.len() as int) + seq![']', '{'] + joined(
                    Seq::new(f.len(), |k: int| key_text(f[k].0)),
                    seq![e.delimiter],
                    0,
                ) + seq!['}', ':'],
            }
            &&& forall|i: int|
                0 <= i < a.len() ==> #[trigger] ls[i + 1] == (Line {
                    depth: deep,
                    text: joined(
                        Seq::new(
                            f.len(),
                            |k: int|
                                primitive_text(
                                    entry(a[i]->Object_0, f[k].0)->0,
                                    e.delimiter,
                                ),
                        ),
                        seq![e.delimiter, ' '],
                        0,
                    ),
                })
        }),
{
    reveal_strlit("}:");
    let f = a[0]->Object_0;
    let d = e.delimiter;
    let ls = written_array(e, key, keyed, a, depth, deep);
    assert(a[0] is Object);
    assert(!is_simple(a[0]));
    assert forall|k: int| 0 <= k < f.len() implies is_simple((#[trigger] f[k]).1) by {
        lemma_entry_found(f, k);
        assert(entry(a[0]->Object_0, a[0]->Object_0[k].0) matches Some(x) && is_simple(x));
    }
    assert forall|i: int| 1 <= i < a.len() implies is_row(#[trigger] a[i], keys(f)) by {
        assert(a[i] is Object);
        assert(a[i]->Object_0.len() == f.len());
        assert forall|k: int| 0 <= k < keys(f).len() implies match entry(
            a[i]->Object_0,
            #[trigger] keys(f)[k],
        ) {
            Some(x) => is_simple(x),
            None => false,
        } by {
            assert(entry(a[i]->Object_0, a[0]->Object_0[k].0) matches Some(x) && is_simple(x));
        }
    }
    assert(table_fields(a) == Some(keys(f)));
    lemma_rows(a, keys(f), d, deep, 0);
    let rows = row_lines(a, keys(f), d, deep, 0);
    assert(field_texts(keys(f)) =~= Seq::new(f.len(), |k: int| key_text(f[k].0)));
    let h = key + seq!['['] + integer_text(a.len() as int);
    assert(h + seq![']'] + seq!['{'] =~= h + seq![']', '{']);
    assert("}:"@ =~= seq!['}', ':']);
    assert(ls.len() == 1 + rows.len());
    assert forall|i: int| 0 <= i < a.len() implies #[trigger] ls[i + 1] == (Line {
        depth: deep,
        text: joined(
            Seq::new(f.len(), |k: int| primitive_text(entry(a[i]->Object_0, f[k].0)->0, d)),
            seq![d, ' '],
            0,
        ),
    }) by {
        assert(ls[i + 1] == rows[i]);
        assert(rows[i - 0] == rows[i]);
        assert forall|k: int| 0 <= k < f.len() implies #[trigger] row_texts(
            a[i]->Object_0,
            keys(f),
            d,
        )[k] == primitive_text(entry(a[i]->Object_0, f[k].0)->0, d) by {
            assert(entry(a[i]->Object_0, a[0]->Object_0[k].0) matches Some(x) && is_simple(x));
        }
        assert(row_texts(a[i]->Object_0, keys(f), d) =~= Seq::new(
            f.len(),
            |k: int| primitive_text(entry(a[i]->Object_0, f[k].0)->0, d),
        ));
    }
}

// ---------------------------------------------------------------------------
// Entries, items and lines

/// The lines of the entries from some position on, with one more behind them.
proof fn lemma_entries_from(e: Style, o: Entries, x: (Text, Val), depth: int, i: int)
    requires
        0 <= i <= o.len(),
    ensures
        written_entries(e, o.push(x), depth, i) == written_entries(e, o, depth, i)
            + written_entry(e, x.0, x.1, depth, true),
    decreases o.len() - i,
{
    let p = o.push(x);
    let last = written_entry(e, x.0, x.1, depth, true);
    if i < o.len() {
        lemma_entries_from(e, o, x, depth, i + 1);
        assert(p[i] == o[i]);
        let one = written_entry(e, o[i].0, o[i].1, depth, true);
        let rest = written_entries(e, o, depth, i + 1);
        assert(one + (rest + last) =~= (one + rest) + last);
    } else {
        assert(p[i] == x);
        assert(written_entries(e, p, depth, i + 1) =~= seq![]);
        assert(last + Seq::<Line>::empty() =~= last);
        assert(Seq::<Line>::empty() + last =~= last);
    }
}

/// The lines of the items from some position on, with one more behind them.
proof fn lemma_items_from(e: Style, a: Seq<Val>, x: Val, depth: int, i: int)
    requires
        0 <= i <= a.len(),
    ensures
        written_items(e, a.push(x), depth, i) == written_items(e, a, depth, i) + written_item(
            e,
            x,
            depth,
        ),
    decreases a.len() - i,
{
    let p = a.push(x);
    let last = written_item(e, x, depth);
    if i < a.len() {
        lemma_items_from(e, a, x, depth, i + 1);
        assert(p[i] == a[i]);
        let one = written_item(e, a[i], depth);
        let rest = written_items(e, a, depth, i + 1);
        assert(one + (rest + last) =~= (one + rest) + last);
    } else {
        assert(p[i] == x);
        assert(written_items(e, p, depth, i + 1) =~= seq![]);
        assert(last + Seq::<Line>::empty() =~= last);
        assert(Seq::<Line>::empty() + last =~= last);
    }
}

/// Entries and items are written one behind the other, and those before the last
/// one as they are without it.
pub proof fn entries_and_items_are_written_in_order(
    e: Style,
    o: Entries,
    x: (Text, Val),
    a: Seq<Val>,
    v: Val,
    depth: int,
)
    ensures
        written_entries(e, seq![], depth, 0) == Seq::<Line>::empty(),
        written_entries(e, o.push(x), depth, 0) == written_entries(e, o, depth, 0)
            + written_entry(e, x.0, x.1, depth, true),
        written_items(e, seq![], depth, 0) == Seq::<Line>::empty(),
        written_items(e, a.push(v), depth, 0) == written_items(e, a, depth, 0) + written_item(
            e,
            v,
            depth,
        ),
{
    lemma_entries_from(e, o, x, depth, 0);
    lemma_items_from(e, a, v, depth, 0);
}

/// A primitive stands behind its key on one line, an object below it, one level
/// deeper, and an empty one behind it; an item that is a primitive stands behind
/// a dash.
pub proof fn what_an_entry_holds_stands_behind_its_key_or_below_it(
    d: char,
    k: Text,
    v: Val,
    depth: int,
)
    ensures
        ({
            let e = Style { delimiter: d, schemas: seq![] };
            let ls = written_entry(e, k, v, depth, true);
            &&& is_simple(v) ==> ls == seq![
                Line { depth, text: key_text(k) + seq![':', ' '] + primitive_text(v, d) },
            ]
            &&& v == Val::Object(seq![]) ==> ls == seq![
                Line { depth, text: key_text(k) + seq![':', ' ', '{', '}'] },
            ]
            &&& v == Val::Array(seq![]) ==> ls == seq![
                Line { depth, text: key_text(k) + seq![':', ' ', '[', ']'] },
            ]
            &&& v matches Val::Object(o) ==> o.len() > 0 ==> ls == seq![
                Line { depth, text: key_text(k) + seq![':'] },
            ] + written_entries(e, o, depth + 1, 0)
            &&& is_simple(v) ==> written_item(e, v, depth) == seq![
                Line { depth, text: seq!['-', ' '] + primitive_text(v, d) },
            ]
        }),
{
    reveal_strlit(": ");
    reveal_strlit(":");
    reveal_strlit(": {}");
    reveal_strlit(": []");
    reveal_strlit("- ");
    assert(": "@ =~= seq![':', ' ']);
    assert(":"@ =~= seq![':']);
    assert(": {}"@ =~= seq![':', ' ', '{', '}']);
    assert(": []"@ =~= seq![':', ' ', '[', ']']);
    assert("- "@ =~= seq!['-', ' ']);
    let none = Seq::<(Text, Val)>::empty();
    assert(matching_schema(none, v, 0) is None);
}

/// Lines stand one below the other, each behind as many spaces as its depth takes.
pub proof fn lines_are_indented_by_depth(ls: Seq<Line>, l: Line, indent: nat)
    requires
        l.depth >= 0,
    ensures
        layout(seq![l], indent) == Seq::new((indent * l.depth) as nat, |i: int| ' ') + l.text,
        ls.len() > 0 ==> layout(ls.push(l), indent) == layout(ls, indent) + seq!['\n'] + layout(
            seq![l],
            indent,
        ),
{
    assert(indent * l.depth >= 0) by (nonlinear_arith)
        requires
            l.depth >= 0,
    ;
    assert(spaces(indent * l.depth) =~= Seq::new(
        (indent * l.depth) as nat,
        |i: int| ' ',
    ));
    assert(ls.push(l).drop_last() =~= ls);
}
/// Any other array is a list: a header with the number of its items, and the
/// items below it.
#[verifier::rlimit(40)]
pub proof fn what_is_no_table_is_a_list(
    e: Style,
    key: Text,
    keyed: bool,
    a: Seq<Val>,
    depth: int,
    deep: int,
    i: int,
)
    requires
        0 <= i < a.len(),
        !is_simple(a[i]),
        !is_table(a),
        a[0] matches Val::Object(o) ==> distinct(o),
    ensures
        written_array(e, key, keyed, a, depth, deep) == seq![
            Line {
                depth,
                text: key + seq!['['] + integer_text(a.len() as int) + seq![']', ':'],
            },
        ] + written_items(e, a, deep, 0),
{
    reveal_strlit(":");
    assert(":"@ =~= seq![':']);
    let h = key + seq!['['] + integer_text(a.len() as int);
    assert(h + seq![']'] + seq![':'] =~= h + seq![']', ':']);
    if table_fields(a) is Some {
        let f = a[0]->Object_0;
        assert forall|j: int| 0 <= j < a.len() implies (#[trigger] a[j]) is Object
            && a[j]->Object_0.len() == f.len() by {
            if j > 0 {
                assert(is_row(a[j], keys(f)));
            }
        }
        assert forall|j: int, k: int| 0 <= j < a.len() && 0 <= k < f.len() implies (
        #[trigger] entry(a[j]->Object_0, f[k].0) matches Some(x) && is_simple(x)) by {
            if j > 0 {
                assert(is_row(a[j], keys(f)));
                assert(keys(f)[k] == f[k].0);
            } else {
                lemma_entry_found(f, k);
                assert(is_simple(f[k].1));
            }
        }
        assert(is_table(a));
    }
}

// ---------------------------------------------------------------------------
// Names for repeated parts

/// A text without dots behind a dot is a piece of its own.
#[verifier::rlimit(40)]
proof fn lemma_split_behind(x: Text, p: Text)
    requires
        !p.contains('.'),
    ensures
        split(x + seq!['.'] + p, '.') == split(x, '.').push(p),
    decreases x.len(),
{
    let t = x + seq!['.'] + p;
    lemma_find_from(x, '.', 0);
    lemma_find_from(p, '.', 0);
    assert(split(p, '.') =~= seq![p]) by {
        if find(p, '.') is Some {
            assert(p[find(p, '.')->0] == '.');
        }
    }
    match find(x, '.') {
        Some(k) => {
            assert(t[k] == '.');
            assert forall|j: int| 0 <= j < k implies t[j] != '.' by {
                assert(t[j] == x[j]);
            }
            lemma_find_at(t, '.', k);
            let rest = x.subrange(k + 1, x.len() as int);
            assert(t.subrange(0, k) =~= x.subrange(0, k));
            assert(t.subrange(k + 1, t.len() as int) =~= rest + seq!['.'] + p);
            lemma_split_behind(rest, p);
            assert(split(t, '.') =~= split(x, '.').push(p));
        },
        None => {
            let n = x.len() as int;
            assert(t[n] == '.');
            assert forall|j: int| 0 <= j < n implies t[j] != '.' by {
                assert(t[j] == x[j]);
            }
            lemma_find_at(t, '.', n);
            assert(t.subrange(0, n) =~= x);
            assert(t.subrange(n + 1, t.len() as int) =~= p);
            assert(split(t, '.') =~= split(x, '.').push(p));
        },
    }
}

/// A text without another keeps all of it.
proof fn lemma_without_none(k: Text, p: Text)
    requires
        find_text(k, p, 0) is None,
    ensures
        without_text(k, p) == k,
{
    reveal_with_fuel(concatenated, 2);
    assert(split_text(k, p) == seq![k]);
    assert(k + Seq::<char>::empty() =~= k);
}

/// Whether `k` is a key that says something: it holds no dot, is no position, and
/// holds none of the words that say little.
pub open spec fn is_telling(k: Text) -> bool {
    &&& k.len() > 0
    &&& k[0] != '['
    &&& !k.contains('.')
    &&& find_text(k, "properties"@, 0) is None
    &&& find_text(k, "content"@, 0) is None
    &&& find_text(k, "application/json"@, 0) is None
    &&& find_text(k, "schema"@, 0) is None
}

/// What is left of a telling key.
proof fn lemma_telling(k: Text)
    requires
        is_telling(k),
    ensures
        trim_char(
            without_text(
                without_text(
                    without_text(without_text(k, "properties"@), "content"@),
                    "application/json"@,
                ),
                "schema"@,
            ),
            '.',
        ) == k,
        !is_position(k),
{
    lemma_without_none(k, "properties"@);
    lemma_without_none(k, "content"@);
    lemma_without_none(k, "application/json"@);
    lemma_without_none(k, "schema"@);
    assert(k[0] != '.');
    assert(k.last() != '.');
}

/// A repeated part is named by the last key of its path, whatever stands before
/// it, where that key says something; the position behind it does not count.
#[verifier::rlimit(40)]
pub proof fn a_part_is_named_by_its_last_key(base: Text, k: Text, n: nat)
    requires
        is_telling(k),
        base.len() > 0 ==> base[0] != '.',
        n <= usize::MAX,
    ensures
        ({
            let path = if base.len() == 0 {
                k
            } else {
                base + seq!['.'] + k
            };
            &&& schema_name(path) == k
            &&& schema_name(path + seq!['.', '['] + integer_text(n as int) + seq![']']) == k
        }),
{
    let path = if base.len() == 0 {
        k
    } else {
        base + seq!['.'] + k
    };
    lemma_telling(k);
    assert(k[0] != '.' && k.last() != '.');
    assert(path[0] != '.' && path.last() == k.last());
    assert(trim_char(path, '.') == path);
    let parts = split(path, '.');
    if base.len() == 0 {
        lemma_find_from(k, '.', 0);
        if find(k, '.') is Some {
            assert(k[find(k, '.')->0] == '.');
        }
        assert(parts == seq![k]);
    } else {
        lemma_split_behind(base, k);
    }
    assert(parts.last() == k);
    assert(last_name(parts) == k);
    lemma_digits_text(n);
    let digits = integer_text(n as int);
    let p = seq!['['] + digits + seq![']'];
    assert forall|j: int| 0 <= j < p.len() implies p[j] != '.' by {
        if 0 < j < p.len() - 1 {
            assert(p[j] == digits[j - 1]);
            assert(is_digit(digits[j - 1]));
        }
    }
    let deep = path + seq!['.', '['] + digits + seq![']'];
    assert(deep =~= path + seq!['.'] + p);
    assert(deep[0] == path[0]);
    assert(deep.last() == ']');
    assert(trim_char(deep, '.') == deep);
    lemma_split_behind(path, p);
    assert(p.subrange(1, p.len() - 1) =~= digits);
    assert(is_digit(digits[0]));
    assert(length_of(digits) == Some(n));
    assert(is_position(p));
    assert(parts.push(p).drop_last() =~= parts);
    assert(last_name(parts.push(p)) == last_name(parts));
}
// ---------------------------------------------------------------------------
// Values on one line

/// The texts of items on one line.
pub open spec fn item_texts(a: Seq<Val>, d: char) -> Seq<Text> {
    Seq::new(a.len(), |i: int| inline_text(a[i], d))
}

/// The texts of entries on one line: keys, colons and values.
pub open spec fn entry_texts(o: Entries, d: char) -> Seq<Text> {
    Seq::new(o.len(), |i: int| key_text(o[i].0) + seq![':'] + inline_text(o[i].1, d))
}

/// Items on one line, from some position on.
proof fn lemma_items_joined(a: Seq<Val>, d: char, i: int)
    requires
        0 <= i <= a.len(),
    ensures
        inline_items(a, d, i) == joined(item_texts(a, d), seq![',', ' '], i),
    decreases a.len() - i,
{
    reveal_strlit(", ");
    assert(", "@ =~= seq![',', ' ']);
    if i < a.len() {
        lemma_items_joined(a, d, i + 1);
        assert(item_texts(a, d)[i] == inline_text(a[i], d));
    }
}

/// Entries on one line, from some position on.
proof fn lemma_entries_joined(o: Entries, d: char, i: int)
    requires
        0 <= i <= o.len(),
    ensures
        inline_fields(o, d, i) == joined(entry_texts(o, d), seq![',', ' '], i),
    decreases o.len() - i,
{
    reveal_strlit(", ");
    assert(", "@ =~= seq![',', ' ']);
    if i < o.len() {
        lemma_entries_joined(o, d, i + 1);
        let one = key_text(o[i].0) + seq![':'] + inline_text(o[i].1, d);
        assert(entry_texts(o, d)[i] == one);
        let head: Text = if i > 0 {
            seq![',', ' ']
        } else {
            seq![]
        };
        let rest = inline_fields(o, d, i + 1);
        assert(head + key_text(o[i].0) + seq![':'] + inline_text(o[i].1, d) + rest =~= head + one
            + rest);
    }
}

/// A definition writes its value on one line: the items of an array in brackets
/// and the entries of an object in braces, each key with a colon behind it, with
/// a comma and a space between each two.
pub proof fn a_definition_stands_on_one_line(o: Entries, a: Seq<Val>, v: Val, d: char)
    ensures
        inline_text(Val::Array(a), d) == seq!['['] + joined(
            Seq::new(a.len(), |i: int| inline_text(a[i], d)),
            seq![',', ' '],
            0,
        ) + seq![']'],
        inline_text(Val::Object(o), d) == seq!['{'] + joined(
            Seq::new(o.len(), |i: int| key_text(o[i].0) + seq![':'] + inline_text(o[i].1, d)),
            seq![',', ' '],
            0,
        ) + seq!['}'],
        is_simple(v) ==> inline_text(v, d) == primitive_text(v, d),
{
    lemma_items_joined(a, d, 0);
    lemma_entries_joined(o, d, 0);
}

/// The definitions of a document stand before its value, each on a line with the
/// word of its kind, its name and its value; between kinds that are there stands
/// an empty line.
#[verifier::rlimit(40)]
pub proof fn definitions_stand_before_the_value(s: Stores, d: char, indent: nat, v: Val)
    ensures
        ({
            let kind = |w: Text, o: Entries|
                Seq::new(
                    o.len(),
                    |j: int|
                        Line { depth: 0, text: w + o[j].0 + seq![' '] + inline_text(o[j].1, d) },
                );
            let a = kind(seq!['s', ':'], s.schemas);
            let b = kind(seq!['r', ':'], s.responses);
            let c = kind(seq!['s', 'e', 'c', ':'], s.security);
            let gap = seq![Line { depth: 0, text: seq![] }];
            let ab = if a.len() > 0 && b.len() > 0 {
                a + gap + b
            } else {
                a + b
            };
            let abc = if ab.len() > 0 && c.len() > 0 {
                ab + gap + c
            } else {
                ab + c
            };
            whole_text(s, d, indent, v) == layout(
                abc + written_value(Style { delimiter: d, schemas: s.schemas }, v),
                indent,
            )
        }),
{
    reveal_strlit("s:");
    reveal_strlit("r:");
    reveal_strlit("sec:");
    let kind = |w: Text, o: Entries|
        Seq::new(
            o.len(),
            |j: int| Line { depth: 0, text: w + o[j].0 + seq![' '] + inline_text(o[j].1, d) },
        );
    assert("s:"@ =~= seq!['s', ':']);
    assert("r:"@ =~= seq!['r', ':']);
    assert("sec:"@ =~= seq!['s', 'e', 'c', ':']);
    assert(definition_lines("s:"@, s.schemas, d) =~= kind(seq!['s', ':'], s.schemas));
    assert(definition_lines("r:"@, s.responses, d) =~= kind(seq!['r', ':'], s.responses));
    assert(definition_lines("sec:"@, s.security, d) =~= kind(
        seq!['s', 'e', 'c', ':'],
        s.security,
    ));
}
// ---------------------------------------------------------------------------
// What an encoder is given

/// Definitions from some position on, with one more behind them.
proof fn lemma_definitions_from(s: Stores, d: DefType, v: Entries, e: (Text, Val), i: int)
    requires
        0 <= i <= v.len(),
    ensures
        with_definitions(s, d, v.push(e), i) == defined(with_definitions(s, d, v, i), d, e.0, e.1),
    decreases v.len() - i,
{
    let w = v.push(e);
    if i < v.len() {
        assert(w[i] == v[i]);
        lemma_definitions_from(defined(s, d, v[i].0, v[i].1), d, v, e, i + 1);
    } else {
        assert(w[i] == e);
        reveal_with_fuel(with_definitions, 2);
    }
}

/// The definitions that an encoder is given are defined one after the other, all
/// of them; and what was there before a document stays before it.
pub proof fn what_an_encoder_is_given_is_kept(
    s: Stores,
    d: DefType,
    v: Entries,
    e: (Text, Val),
    m: Manner,
    x: Val,
    start: Text,
)
    ensures
        with_definitions(s, d, seq![], 0) == s,
        with_definitions(s, d, v.push(e), 0) == defined(with_definitions(s, d, v, 0), d, e.0, e.1),
        !m.auto ==> encoded(m, x, start) == start + encoded(m, x, seq![]),
{
    lemma_definitions_from(s, d, v, e, 0);
    let t = whole_text(stores_for(m, x), m.delimiter, m.indent, x);
    assert(Seq::<char>::empty() + t =~= t);
}

} // verus!
