//! What an encoder writes, a decoder reads back.

use vstd::prelude::*;
use crate::decoder::{
    array_lines, decode_text, depth_at, document, expanded_lines, field, good, is_inline_item,
    is_item, item_base, item_head, item_text, key_before, key_value, leading_key, list_item,
    more_fields, new_setting, object_lines, row, table_lines,
};
use crate::encoder::{
    all_simple, encode_text, field_texts, header_text, inline_array_text, is_plain_key, is_row,
    joined, key_text, layout, line_text, matching_schema, primitive_text, primitive_texts, quoted,
    row_lines, row_texts, separator, table_fields, unsafe_in_key, written_array, written_entries,
    written_entry, written_first, written_item, written_items, written_object_item, written_rest,
    written_value, Style,
};
use crate::laying::{
    begins_flat, expanding_undoes_minifying, falls_to, fits, flat_before, foldable, folds, is_line,
    is_segment, is_shut, laid_out, leads_to, lemma_decode_laid_out, lemma_layout_is_laid_out,
    lemma_line_text, lemma_lines_of_layout, line_texts, minifying_keeps_the_value, name_lines,
    nests, no_open_semi, said, structure_of, taken, unfolds_to,
};
use crate::lines::{
    array_header, definition_kind, has_inline_value, is_silent, levels_opened, Header, Known, Line,
};
use crate::minifier::{expanded, expected_depth, has_value_behind, levels_begun, minified};
use crate::number::{integer_text, is_digit, lemma_digits_text};
use crate::readback::{
    gap, head_key, is_token, is_trim, is_unit, key_reads, lemma_all_pieces, lemma_decimal_plain,
    lemma_fields, lemma_header, lemma_header_colon, lemma_header_inline, lemma_header_no_inline,
    lemma_joined_holds, lemma_joined_trim, lemma_key_line, lemma_key_text, lemma_no_colon,
    lemma_open_colon_from, lemma_place_behind, lemma_place_outside, lemma_place_same,
    lemma_primitive_reads, lemma_token_closed, lemma_token_no_colon, lemma_token_place,
    lemma_token_unit, lemma_trim_of_trim, no_marks, no_quotes_or_braces, place_at, raw_keys,
    raw_name, token_reads,
};
use crate::scan::{
    behind_quotes, brace_content, brace_span, bracket_close, first_mark, has_colon, key_colon,
    lemma_behind_quotes, lemma_first_mark, open_to, outside, pieces, step, Place,
};
use crate::schema_registry::Stores;
use crate::text::{
    ends_with, holds_text, is_space, lemma_find_at, lemma_find_from, lemma_rfind_before, lines,
    rfind, starts_with, trim, Text,
};
use crate::tokens::{delimited, inline_value, is_reference, primitive};
use crate::value::{
    distinct, entries_in, entries_well_keyed, entry, equality_goes_both_ways, has_key, is_simple,
    items_eq, items_well_keyed, key_index, keys, lemma_entry_found, lemma_entry_smaller,
    lemma_item_smaller, lemma_key_index, lemma_put_new, val_eq, well_keyed, Entries, Val,
};

verus! {

// ---------------------------------------------------------------------------
// Values that read back

/// Whether all items are primitives that read back on one line.
pub open spec fn all_listed(a: Seq<Val>) -> bool {
    forall|i: int| 0 <= i < a.len() ==> is_simple(#[trigger] a[i]) && token_reads(a[i])
}

/// Whether a key does not announce a definition where a colon stands behind it.
pub open spec fn is_free_key(k: Text) -> bool {
    k != "s"@ && k != "r"@ && k != "sec"@
}

/// Whether the fields and the rows of a table read back.
pub open spec fn table_reads(a: Seq<Val>, f: Seq<Text>) -> bool {
    &&& forall|k: int| 0 <= k < f.len() ==> key_reads(#[trigger] f[k])
    &&& forall|i: int, k: int|
        0 <= i < a.len() && 0 <= k < f.len() ==> token_reads(
            #[trigger] entry(a[i]->Object_0, f[k])->0,
        )
}

/// Whether the name of a definition reads back: it is a word without an opening
/// brace that does not end with a colon, and leaves a reader outside of quotes,
/// brackets and braces.
pub open spec fn label_reads(name: Text) -> bool {
    &&& name.len() > 0
    &&& forall|i: int| 0 <= i < name.len() ==> !is_space(#[trigger] name[i])
    &&& !name.contains('{')
    &&& name.last() != ':'
    &&& calm(name)
}

/// Whether an entry reads back. Where `refs` holds, an object that equals a
/// definition is written as a reference to it.
pub open spec fn entry_reads(e: Style, k: Text, v: Val, refs: bool) -> bool
    decreases v, 0int,
{
    key_reads(k) && match v {
        Val::Array(a) => if a.len() == 0 {
            is_free_key(k)
        } else {
            array_reads(e, a)
        },
        Val::Object(o) => if o.len() == 0 {
            is_free_key(k)
        } else {
            match matching_schema(e.schemas, v, 0) {
                Some(name) if refs => is_free_key(k) && label_reads(name),
                _ => is_free_key(k) && entries_read(e, o, 0, true),
            }
        },
        _ => is_free_key(k) && token_reads(v),
    }
}

/// A reference to a definition.
pub open spec fn reference_text(name: Text) -> Text {
    "@s:"@ + name
}

/// Whether the entries from `i` on read back.
pub open spec fn entries_read(e: Style, o: Entries, i: int, refs: bool) -> bool
    decreases o, o.len() - i,
{
    if 0 <= i < o.len() {
        entry_reads(e, o[i].0, o[i].1, refs) && entries_read(e, o, i + 1, refs)
    } else {
        true
    }
}

/// Whether an array that is not empty reads back: its length is one that a
/// machine can count to, and its items read back on one line, in a table or as
/// list items.
pub open spec fn array_reads(e: Style, a: Seq<Val>) -> bool
    decreases a, a.len() + 1,
{
    a.len() <= usize::MAX && if all_simple(a) {
        all_listed(a)
    } else {
        match table_fields(a) {
            Some(f) => table_reads(a, f),
            None => items_read(e, a, 0),
        }
    }
}

/// Whether the list items from `i` on read back.
pub open spec fn items_read(e: Style, a: Seq<Val>, i: int) -> bool
    decreases a, a.len() - i,
{
    if 0 <= i < a.len() {
        item_reads(e, a[i]) && items_read(e, a, i + 1)
    } else {
        true
    }
}

/// Whether a list item reads back.
pub open spec fn item_reads(e: Style, v: Val) -> bool
    decreases v, 0int,
{
    match v {
        Val::Object(o) => o.len() == 0 || match matching_schema(e.schemas, v, 0) {
            Some(name) => label_reads(name),
            None => first_reads(e, o[0].0, o[0].1) && entries_read(e, o, 1, false),
        },
        Val::Array(a) => a.len() == 0 || array_reads(e, a),
        _ => token_reads(v),
    }
}

/// Whether the first entry of an object that is a list item reads back.
pub open spec fn first_reads(e: Style, k: Text, v: Val) -> bool
    decreases v, 0int,
{
    key_reads(k) && match v {
        Val::Array(a) => a.len() == 0 || array_reads(e, a),
        Val::Object(o) => entries_read(e, o, 0, true),
        _ => token_reads(v),
    }
}

/// Whether a value reads back from the document for it.
pub open spec fn reads_back(e: Style, v: Val) -> bool {
    match v {
        Val::Object(o) => entries_read(e, o, 0, true),
        Val::Array(a) => a.len() == 0 || array_reads(e, a),
        _ => token_reads(v),
    }
}

// ---------------------------------------------------------------------------
// What is read back

/// The value that is read back: `v` with the entries of the rows of a table in
/// the order of those of the first row, and with definitions in the place of
/// the objects that are written as references to them.
pub open spec fn read_back(e: Style, v: Val) -> Val
    decreases v, 0int,
{
    match v {
        Val::Array(a) => match table_fields(a) {
            Some(f) => Val::Array(table_rows(a, f)),
            None => Val::Array(read_items(e, a, 0)),
        },
        Val::Object(o) => Val::Object(read_entries(e, o, 0, true)),
        _ => v,
    }
}

/// The items from `i` on as they are read back.
pub open spec fn read_items(e: Style, a: Seq<Val>, i: int) -> Seq<Val>
    decreases a, a.len() - i,
{
    if 0 <= i < a.len() {
        seq![read_item(e, a[i])] + read_items(e, a, i + 1)
    } else {
        seq![]
    }
}

/// A list item as it is read back: it may be a reference, but none of its own
/// entries is.
pub open spec fn read_item(e: Style, v: Val) -> Val
    decreases v, 1int,
{
    match referred(e, v, true) {
        Some(name) => entry(e.schemas, name)->0,
        None => match v {
            Val::Object(o) => Val::Object(read_entries(e, o, 0, false)),
            _ => read_back(e, v),
        },
    }
}

/// The entries from `i` on as they are read back.
pub open spec fn read_entries(e: Style, o: Entries, i: int, refs: bool) -> Entries
    decreases o, o.len() - i,
{
    if 0 <= i < o.len() {
        seq![(o[i].0, read_entry(e, o[i].1, refs))] + read_entries(e, o, i + 1, refs)
    } else {
        seq![]
    }
}

/// The definition that an entry is written as a reference to.
pub open spec fn referred(e: Style, v: Val, refs: bool) -> Option<Text> {
    if refs && v is Object && v->Object_0.len() > 0 {
        matching_schema(e.schemas, v, 0)
    } else {
        None
    }
}

/// The value of an entry as it is read back.
pub open spec fn read_entry(e: Style, v: Val, refs: bool) -> Val
    decreases v, 1int,
{
    match referred(e, v, refs) {
        Some(name) => entry(e.schemas, name)->0,
        None => read_back(e, v),
    }
}

/// A row with its entries in the order of the fields.
pub open spec fn in_field_order(v: Val, f: Seq<Text>) -> Entries {
    Seq::new(f.len(), |k: int| (f[k], entry(v->Object_0, f[k])->0))
}

/// The rows of a table with their entries in the order of the fields.
pub open spec fn table_rows(a: Seq<Val>, f: Seq<Text>) -> Seq<Val> {
    Seq::new(a.len(), |i: int| Val::Object(in_field_order(a[i], f)))
}

// ---------------------------------------------------------------------------
// Values on one line

/// Tokens that are joined read back as the values.
proof fn lemma_delimited(s: Stores, open: Seq<Text>, a: Seq<Val>, i: int, done: Seq<Val>)
    requires
        0 <= i <= a.len(),
        a.len() > 0,
        forall|j: int| 0 <= j < a.len() ==> is_simple(#[trigger] a[j]) && token_reads(a[j]),
        done == a.subrange(0, i),
    ensures
        delimited(s, open, joined(primitive_texts(a, ','), separator(','), 0), ',', i, done) == (
            a,
            open,
        ),
    decreases a.len() - i,
{
    let parts = primitive_texts(a, ',');
    assert(separator(',') =~= seq![','] + gap(true));
    assert forall|j: int| 0 <= j < parts.len() implies is_unit(#[trigger] parts[j]) by {
        assert(is_simple(a[j]));
        lemma_primitive_reads(s, open, a[j]);
        lemma_token_unit(parts[j]);
    }
    lemma_all_pieces(parts, true);
    let x = joined(parts, separator(','), 0);
    if i < a.len() {
        assert(is_simple(a[i]));
        lemma_primitive_reads(s, open, a[i]);
        let piece = pieces(x, ',')[i];
        assert(primitive(s, open, piece) == (a[i], open));
        assert(done.push(a[i]) =~= a.subrange(0, i + 1));
        lemma_delimited(s, open, a, i + 1, done.push(a[i]));
    } else {
        assert(done =~= a);
    }
}

/// Primitives that are joined stand without white space around them and begin
/// as the first of them begins.
proof fn lemma_joined_values(a: Seq<Val>)
    requires
        a.len() > 0,
        forall|j: int| 0 <= j < a.len() ==> is_simple(#[trigger] a[j]) && token_reads(a[j]),
    ensures
        ({
            let x = joined(primitive_texts(a, ','), separator(','), 0);
            &&& is_trim(x)
            &&& x[0] == primitive_text(a[0], ',')[0]
            &&& !x.contains('\n')
        }),
{
    let parts = primitive_texts(a, ',');
    assert forall|j: int| 0 <= j < parts.len() implies is_trim(#[trigger] parts[j]) && !parts[j].contains(
        '\n',
    ) by {
        assert(is_simple(a[j]));
        lemma_primitive_reads(arbitrary(), arbitrary(), a[j]);
    }
    lemma_joined_trim(parts, separator(','), 0);
    lemma_joined_holds(parts, separator(','), 0, '\n');
}

/// The text of a primitive holds no colon, that in quotes aside, and is not
/// taken for the header of an array.
pub proof fn lemma_listed(v: Val)
    requires
        is_simple(v),
        token_reads(v),
    ensures
        !has_colon(primitive_text(v, ',')),
        array_header(primitive_text(v, ',')) is None,
{
    lemma_primitive_reads(arbitrary(), arbitrary(), v);
    lemma_token_no_colon(primitive_text(v, ','));
}

/// The values behind a header read back.
pub proof fn lemma_array_inline(k: Option<Text>, a: Seq<Val>)
    requires
        k matches Some(name) ==> key_reads(name),
        0 < a.len() <= usize::MAX,
        all_listed(a),
    ensures
        ({
            let t = head_key(k);
            array_header(inline_array_text(t, a, ',')) == Some(
                Header {
                    key: k,
                    raw: raw_name(k),
                    length: a.len(),
                    delimiter: ',',
                    fields: None,
                    raw_fields: None,
                    inline: Some(joined(primitive_texts(a, ','), separator(','), 0)),
                },
            )
        }),
{
    let t = head_key(k);
    let x = joined(primitive_texts(a, ','), separator(','), 0);
    let tail = seq![':', ' '] + x;
    let c = header_text(t, a.len()) + seq![':', ' '] + x;
    assert(c =~= header_text(t, a.len()) + tail);
    assert(tail[0] == ':');
    lemma_joined_values(a);
    lemma_header(k, a.len(), tail);
    lemma_header_inline(header_text(t, a.len()), x);
}

// ---------------------------------------------------------------------------
// Lines

/// A style without definitions.
pub open spec fn plain_style() -> Style {
    Style { delimiter: ',', schemas: seq![] }
}

/// Whether values are written with commas between them, and no two definitions
/// have the same name.
pub open spec fn usable(e: Style) -> bool {
    e.delimiter == ',' && distinct(e.schemas)
}

/// Whether `t` holds a reference to a definition.
pub open spec fn refers(t: Text, name: Text) -> bool {
    holds_text(t, reference_text(name))
}

/// Whether the references in the lines read back as what they refer to.
pub open spec fn resolves(e: Style, s: Stores, open: Seq<Text>, ls: Seq<Line>) -> bool {
    forall|i: int, name: Text|
        0 <= i < ls.len() && has_key(e.schemas, name) && #[trigger] refers(ls[i].text, name)
            ==> inline_value(s, open, reference_text(name)) == (
            entry(e.schemas, name)->0,
            open,
        )
}

/// Whether a style is usable, and no object in a definition has a key twice.
pub open spec fn well_defined(e: Style) -> bool {
    usable(e) && forall|i: int| 0 <= i < e.schemas.len() ==> well_keyed((#[trigger] e.schemas[i]).1)
}

/// A definition that equals a value is found under its name.
proof fn lemma_matching(d: Entries, v: Val, i: int)
    requires
        distinct(d),
        0 <= i <= d.len(),
        matching_schema(d, v, i) is Some,
    ensures
        ({
            let name = matching_schema(d, v, i)->0;
            &&& has_key(d, name)
            &&& val_eq(v, entry(d, name)->0)
            &&& exists|j: int| 0 <= j < d.len() && (#[trigger] d[j]).1 == entry(d, name)->0
        }),
    decreases d.len() - i,
{
    if val_eq(v, d[i].1) {
        lemma_entry_found(d, i);
    } else {
        lemma_matching(d, v, i + 1);
    }
}

/// Whether the lines `w` stand in `ls` from `i` on.
pub open spec fn placed(ls: Seq<Line>, i: int, w: Seq<Line>) -> bool {
    0 <= i && i + w.len() <= ls.len() && ls.subrange(i, i + w.len()) == w
}

/// Whether what follows line `n` stands no deeper than `depth`.
pub open spec fn closed_at(ls: Seq<Line>, n: int, depth: int) -> bool {
    n == ls.len() || (0 <= n < ls.len() && ls[n].depth <= depth)
}

/// Lines that stand one behind the other.
pub proof fn lemma_placed(ls: Seq<Line>, i: int, a: Seq<Line>, b: Seq<Line>)
    requires
        placed(ls, i, a + b),
    ensures
        placed(ls, i, a),
        placed(ls, i + a.len(), b),
        a.len() > 0 ==> ls[i] == a[0],
        a.len() == 0 && b.len() > 0 ==> ls[i] == b[0],
{
    let w = ls.subrange(i, i + (a + b).len());
    assert(ls.subrange(i, i + a.len()) =~= a) by {
        assert forall|j: int| 0 <= j < a.len() implies ls[i + j] == a[j] by {
            assert(w[j] == (a + b)[j]);
        }
    }
    assert(ls.subrange(i + a.len(), i + a.len() + b.len()) =~= b) by {
        assert forall|j: int| 0 <= j < b.len() implies ls[i + a.len() + j] == b[j] by {
            assert(w[a.len() + j] == (a + b)[a.len() + j]);
        }
    }
    if a.len() > 0 {
        assert(w[0] == (a + b)[0]);
    } else if b.len() > 0 {
        assert(w[0] == (a + b)[0]);
    }
}

/// The first of the lines that stand in `ls`.
pub proof fn lemma_placed_first(ls: Seq<Line>, i: int, w: Seq<Line>)
    requires
        placed(ls, i, w),
        w.len() > 0,
    ensures
        0 <= i < ls.len(),
        ls[i] == w[0],
{
    assert(ls.subrange(i, i + w.len())[0] == w[0]);
}

/// An entry begins with a line at its depth, which is no list item.
pub proof fn lemma_entry_first(e: Style, k: Text, v: Val, depth: int, refs: bool)
    requires
        key_reads(k),
    ensures
        ({
            let w = written_entry(e, k, v, depth, refs);
            &&& w.len() > 0
            &&& w[0].depth == depth
            &&& !is_item(w[0].text)
            &&& w[0].text.len() > key_text(k).len()
            &&& w[0].text.subrange(0, key_text(k).len() as int) == key_text(k)
        }),
{
    reveal_strlit("- ");
    reveal_strlit(": []");
    reveal_strlit(": {}");
    reveal_strlit(":");
    reveal_strlit(": ");
    reveal_strlit(": @s:");
    lemma_key_text(k);
    let w = written_entry(e, k, v, depth, refs);
    let t = key_text(k);
    reveal_with_fuel(written_entry, 2);
    reveal_with_fuel(written_array, 2);
    let c = w[0].text;
    assert(c.len() > t.len());
    assert(c.subrange(0, t.len() as int) =~= t);
    if is_item(c) {
        assert(c.subrange(0, 2) == "- "@);
        assert(c.subrange(0, 2)[0] == c[0]);
        assert(c.subrange(0, 2)[1] == c[1]);
        assert(c[0] == c.subrange(0, t.len() as int)[0]);
        if t.len() > 1 {
            assert(c[1] == c.subrange(0, t.len() as int)[1]);
        } else {
            assert(c[1] == ':' || c[1] == '[');
        }
    }
}

/// An empty array or object on a line reads back.
pub proof fn lemma_empty_inline(s: Stores, open: Seq<Text>)
    ensures
        inline_value(s, open, "[]"@) == (Val::Array(seq![]), open),
        inline_value(s, open, "{}"@) == (Val::Object(seq![]), open),
        is_trim("[]"@),
        is_trim("{}"@),
{
    reveal_strlit("[]");
    reveal_strlit("{}");
    let a = "[]"@;
    let o = "{}"@;
    lemma_trim_of_trim(a);
    lemma_trim_of_trim(o);
    reveal_with_fuel(bracket_close, 3);
    assert(bracket_close(a, 0, outside()) == Some(1int));
    assert(a.subrange(1, 1) =~= seq![]);
    reveal_with_fuel(brace_span, 3);
    assert(brace_span(o, 0, outside(), 0) == Some((0int, 1int)));
    assert(o.subrange(1, 1) =~= seq![]);
    assert(brace_content(o) == Some(Seq::<char>::empty()));
}

/// A line with a key that is free is no definition.
pub proof fn lemma_free_line(k: Text, rest: Text)
    requires
        is_free_key(k),
        rest.len() > 0,
        rest[0] == ':',
    ensures
        definition_kind(key_text(k) + rest) is None,
{
    reveal_strlit("s:");
    reveal_strlit("r:");
    reveal_strlit("sec:");
    reveal_strlit("s");
    reveal_strlit("r");
    reveal_strlit("sec");
    assert("s:"@ =~= "s"@.push(':'));
    assert("r:"@ =~= "r"@.push(':'));
    assert("sec:"@ =~= "sec"@.push(':'));
    lemma_other_start(k, rest, "s"@);
    lemma_other_start(k, rest, "r"@);
    lemma_other_start(k, rest, "sec"@);
}

/// A line with a key begins with no other word and a colon.
proof fn lemma_other_start(k: Text, rest: Text, w: Text)
    requires
        rest.len() > 0,
        rest[0] == ':',
        k != w,
        w.len() > 0,
        w[0] != '"',
        !w.contains(':'),
    ensures
        !starts_with(key_text(k) + rest, w.push(':')),
{
    let t = key_text(k);
    let c = t + rest;
    let p = w.push(':');
    if starts_with(c, p) {
        let b = c.subrange(0, p.len() as int);
        assert(b == p);
        assert(b[0] == w[0]);
        assert(c[t.len() as int] == ':');
        if is_plain_key(k) {
            if w.len() < k.len() {
                assert(b[w.len() as int] == ':');
                assert(!unsafe_in_key(k[w.len() as int]));
            } else if w.len() > k.len() {
                assert(b[k.len() as int] == w[k.len() as int]);
                assert(w.contains(':'));
            } else {
                assert forall|i: int| 0 <= i < k.len() implies k[i] == w[i] by {
                    assert(b[i] == c[i]);
                }
                assert(k =~= w);
            }
        } else {
            assert(c[0] == '"');
        }
    }
}

/// An entry whose value stands on its line reads back.
proof fn lemma_value_field(
    s: Stores,
    open: Seq<Text>,
    ls: Seq<Line>,
    i: int,
    depth: int,
    k: Text,
    p: Text,
    x: Val,
)
    requires
        0 <= i < ls.len(),
        ls[i].text == key_text(k) + ": "@ + p,
        key_reads(k),
        is_trim(p),
        inline_value(s, open, p) == (x, open),
    ensures
        field(s, open, ls, depth, i) == good((Some((k, x)), i + 1), open),
{
    reveal_strlit(": ");
    let t = key_text(k);
    let rest = seq![' '] + p;
    let c = ls[i].text;
    assert(c =~= t + seq![':'] + rest);
    lemma_key_line(k, rest);
    assert(c.subrange(t.len() as int + 1, c.len() as int) =~= rest);
    lemma_trim_of_trim(p);
}

/// What is read back has the keys that were written.
pub proof fn lemma_read_entries(e: Style, o: Entries, i: int, refs: bool)
    requires
        0 <= i <= o.len(),
    ensures
        read_entries(e, o, i, refs).len() == o.len() - i,
        forall|j: int|
            0 <= j < o.len() - i ==> #[trigger] read_entries(e, o, i, refs)[j] == (
                o[i + j].0,
                read_entry(e, o[i + j].1, refs),
            ),
    decreases o.len() - i,
{
    if i < o.len() {
        lemma_read_entries(e, o, i + 1, refs);
        assert forall|j: int| 0 <= j < o.len() - i implies #[trigger] read_entries(e, o, i, refs)[j]
            == (o[i + j].0, read_entry(e, o[i + j].1, refs)) by {
            if j > 0 {
                assert(read_entries(e, o, i, refs)[j] == read_entries(e, o, i + 1, refs)[j - 1]);
            }
        }
    }
}

/// What is read back has as many items as were written.
pub proof fn lemma_read_items(e: Style, a: Seq<Val>, i: int)
    requires
        0 <= i <= a.len(),
    ensures
        read_items(e, a, i).len() == a.len() - i,
        forall|j: int|
            0 <= j < a.len() - i ==> #[trigger] read_items(e, a, i)[j] == read_item(e, a[i + j]),
    decreases a.len() - i,
{
    if i < a.len() {
        lemma_read_items(e, a, i + 1);
        assert forall|j: int| 0 <= j < a.len() - i implies #[trigger] read_items(e, a, i)[j]
            == read_item(e, a[i + j]) by {
            if j > 0 {
                assert(read_items(e, a, i)[j] == read_items(e, a, i + 1)[j - 1]);
            }
        }
    }
}

// ---------------------------------------------------------------------------
// Tables

/// The values of a row in the order of the fields.
pub open spec fn row_values(v: Val, f: Seq<Text>) -> Seq<Val> {
    Seq::new(f.len(), |k: int| entry(v->Object_0, f[k])->0)
}

/// A row of a table has a primitive under each field.
proof fn lemma_table_row(a: Seq<Val>, f: Seq<Text>, i: int, k: int)
    requires
        table_fields(a) == Some(f),
        0 <= i < a.len(),
        0 <= k < f.len(),
    ensures
        a[i] is Object,
        entry(a[i]->Object_0, f[k]) is Some,
        is_simple(entry(a[i]->Object_0, f[k])->0),
{
    let o = a[0]->Object_0;
    if i == 0 {
        lemma_entry_found(o, k);
        assert(is_simple(o[key_index(o, f[k])].1));
    } else {
        assert(is_row(a[i], keys(o)));
    }
}

/// A row reads back.
proof fn lemma_row(f: Seq<Text>, values: Seq<Val>, k: int, done: Entries)
    requires
        values.len() == f.len(),
        0 <= k <= f.len(),
        forall|i: int, j: int| 0 <= i < j < f.len() ==> f[i] != f[j],
        done.len() == k,
        forall|j: int| 0 <= j < k ==> #[trigger] done[j] == (f[j], values[j]),
    ensures
        row(f, values, k, done) == Seq::new(f.len(), |j: int| (f[j], values[j])),
    decreases f.len() - k,
{
    if k < f.len() {
        assert forall|j: int| 0 <= j < done.len() implies (#[trigger] done[j]).0 != f[k] by {
            assert(done[j] == (f[j], values[j]));
        }
        lemma_put_new(done, f[k], values[k]);
        lemma_row(f, values, k + 1, done.push((f[k], values[k])));
    } else {
        assert(done =~= Seq::new(f.len(), |j: int| (f[j], values[j])));
    }
}

/// The lines of the rows from `i` on.
pub proof fn lemma_row_lines(a: Seq<Val>, f: Seq<Text>, depth: int, i: int)
    requires
        table_fields(a) == Some(f),
        0 <= i <= a.len(),
    ensures
        row_lines(a, f, ',', depth, i).len() == a.len() - i,
        forall|j: int|
            0 <= j < a.len() - i ==> #[trigger] row_lines(a, f, ',', depth, i)[j] == (Line {
                depth,
                text: joined(primitive_texts(row_values(a[i + j], f), ','), separator(','), 0),
            }),
    decreases a.len() - i,
{
    if i < a.len() {
        lemma_row_lines(a, f, depth, i + 1);
        assert(f.len() > 0);
        lemma_table_row(a, f, i, 0);
        let o = a[i]->Object_0;
        assert(row_texts(o, f, ',') =~= primitive_texts(row_values(a[i], f), ',')) by {
            assert forall|k: int| 0 <= k < f.len() implies row_texts(o, f, ',')[k]
                == primitive_texts(row_values(a[i], f), ',')[k] by {
                lemma_table_row(a, f, i, k);
            }
        }
        let w = row_lines(a, f, ',', depth, i);
        let rest = row_lines(a, f, ',', depth, i + 1);
        assert forall|j: int| 0 <= j < a.len() - i implies #[trigger] w[j] == (Line {
            depth,
            text: joined(primitive_texts(row_values(a[i + j], f), ','), separator(','), 0),
        }) by {
            if j > 0 {
                assert(w[j] == rest[j - 1]);
            }
        }
    }
}

/// The values of a row are primitives that read back.
pub proof fn lemma_row_values(a: Seq<Val>, f: Seq<Text>, i: int)
    requires
        table_fields(a) == Some(f),
        table_reads(a, f),
        0 <= i < a.len(),
    ensures
        ({
            let vals = row_values(a[i], f);
            &&& vals.len() == f.len()
            &&& vals.len() > 0
            &&& forall|k: int|
                0 <= k < vals.len() ==> is_simple(#[trigger] vals[k]) && token_reads(vals[k])
        }),
{
    let vals = row_values(a[i], f);
    assert forall|k: int| 0 <= k < vals.len() implies is_simple(#[trigger] vals[k]) && token_reads(
        vals[k],
    ) by {
        lemma_table_row(a, f, i, k);
        assert(token_reads(entry(a[i]->Object_0, f[k])->0));
    }
}

/// The rows of a table read back.
proof fn lemma_table_lines(
    s: Stores,
    open: Seq<Text>,
    ls: Seq<Line>,
    at: int,
    depth: int,
    a: Seq<Val>,
    f: Seq<Text>,
    i: int,
    done: Seq<Val>,
)
    requires
        table_fields(a) == Some(f),
        table_reads(a, f),
        distinct(a[0]->Object_0),
        0 <= i <= a.len(),
        placed(ls, at, row_lines(a, f, ',', depth, 0)),
        done == table_rows(a, f).subrange(0, i),
    ensures
        table_lines(s, open, ls, depth, a.len(), f, ',', at + i, done) == (
            table_rows(a, f),
            at + a.len(),
            open,
        ),
    decreases a.len() - i,
{
    let w = row_lines(a, f, ',', depth, 0);
    lemma_row_lines(a, f, depth, 0);
    if i < a.len() {
        let vals = row_values(a[i], f);
        let x = joined(primitive_texts(vals, ','), separator(','), 0);
        assert(ls.subrange(at, at + w.len())[i] == w[i]);
        assert(ls[at + i] == (Line { depth, text: x }));
        lemma_row_values(a, f, i);
        assert(vals.subrange(0, 0) =~= seq![]);
        lemma_delimited(s, open, vals, 0, seq![]);
        let o = a[0]->Object_0;
        assert forall|p: int, q: int| 0 <= p < q < f.len() implies f[p] != f[q] by {
            assert(o[p].0 != o[q].0);
        }
        lemma_row(f, vals, 0, seq![]);
        let r = Val::Object(row(f, vals, 0, seq![]));
        assert(Seq::new(f.len(), |j: int| (f[j], vals[j])) =~= in_field_order(a[i], f));
        assert(done.push(r) =~= table_rows(a, f).subrange(0, i + 1));
        lemma_table_lines(s, open, ls, at, depth, a, f, i + 1, done.push(r));
    } else {
        assert(done =~= table_rows(a, f));
    }
}

// ---------------------------------------------------------------------------
// Nested lines

/// The lines behind the header of an array that is not empty, at depth `deep`.
pub open spec fn body_lines(e: Style, a: Seq<Val>, deep: int) -> Seq<Line> {
    if all_simple(a) {
        seq![]
    } else {
        match table_fields(a) {
            Some(f) => row_lines(a, f, ',', deep, 0),
            None => written_items(e, a, deep, 0),
        }
    }
}

/// The text of the header of an array that is not empty.
pub open spec fn head_text(t: Text, a: Seq<Val>) -> Text {
    if all_simple(a) {
        inline_array_text(t, a, ',')
    } else {
        match table_fields(a) {
            Some(f) => header_text(t, a.len()) + seq!['{'] + joined(field_texts(f), seq![','], 0)
                + "}:"@,
            None => header_text(t, a.len()) + ":"@,
        }
    }
}

/// Whether `h` is the header of `a`.
pub open spec fn heads(h: Header, k: Option<Text>, a: Seq<Val>) -> bool {
    &&& h.key == k
    &&& h.raw == raw_name(k)
    &&& h.length == a.len()
    &&& h.delimiter == ','
    &&& if all_simple(a) {
        &&& h.fields is None
        &&& h.raw_fields is None
        &&& h.inline == Some(joined(primitive_texts(a, ','), separator(','), 0))
    } else {
        match table_fields(a) {
            Some(f) => h.fields == Some(f) && h.raw_fields == Some(raw_keys(f)) && h.inline is None,
            None => h.fields is None && h.raw_fields is None && h.inline is None,
        }
    }
}

/// The header of an array reads back.
pub proof fn lemma_head(e: Style, k: Option<Text>, a: Seq<Val>)
    requires
        k matches Some(name) ==> key_reads(name),
        a.len() > 0,
        array_reads(e, a),
    ensures
        array_header(head_text(head_key(k), a)) matches Some(h) && heads(h, k, a),
{
    let t = head_key(k);
    reveal_strlit("}:");
    reveal_strlit(":");
    let head = header_text(t, a.len());
    if all_simple(a) {
        lemma_array_inline(k, a);
    } else {
        match table_fields(a) {
            Some(f) => {
                let mid = seq!['{'] + joined(field_texts(f), seq![','], 0) + seq!['}'];
                let tail = mid + seq![':'];
                lemma_fields(f);
                assert(head_text(t, a) =~= head + tail);
                assert(tail[tail.len() - 1] == ':');
                lemma_header(k, a.len(), tail);
                let front = head + mid;
                assert(head_text(t, a) =~= front + seq![':']);
                lemma_header_no_inline(front);
            },
            None => {
                assert(":"@ =~= seq![':']);
                assert(":"@[0] == ':');
                lemma_header(k, a.len(), ":"@);
                lemma_header_no_inline(head);
            },
        }
    }
}

/// An array is a header and the lines behind it.
pub proof fn lemma_array_parts(e: Style, t: Text, keyed: bool, a: Seq<Val>, depth: int, deep: int)
    requires
        usable(e),
        a.len() > 0,
    ensures
        written_array(e, t, keyed, a, depth, deep) == seq![
            Line { depth, text: head_text(t, a) },
        ] + body_lines(e, a, deep),
{
    let w = written_array(e, t, keyed, a, depth, deep);
    assert(w =~= seq![Line { depth, text: head_text(t, a) }] + body_lines(e, a, deep));
}

/// The lines behind a header begin at their depth.
pub proof fn lemma_body_first(e: Style, a: Seq<Val>, deep: int)
    requires
        a.len() > 0,
        array_reads(e, a),
        !all_simple(a),
    ensures
        body_lines(e, a, deep).len() > 0,
        body_lines(e, a, deep)[0].depth == deep,
{
    match table_fields(a) {
        Some(f) => {
            lemma_row_lines(a, f, deep, 0);
        },
        None => {
            assert(item_reads(e, a[0]));
            lemma_item_first(e, a[0], deep);
            let w = written_item(e, a[0], deep);
            assert(body_lines(e, a, deep) == w + written_items(e, a, deep, 1));
        },
    }
}

/// The header of an array behind a dash.
pub proof fn lemma_dash_head(t: Text, a: Seq<Val>)
    ensures
        head_text("- "@ + t, a) == "- "@ + head_text(t, a),
        header_text("- "@ + t, a.len()) == "- "@ + header_text(t, a.len()),
        "- "@ + Seq::<char>::empty() == "- "@,
{
    let d = "- "@;
    assert(header_text(d + t, a.len()) =~= d + header_text(t, a.len()));
    assert(head_text(d + t, a) =~= d + head_text(t, a));
    assert(d + Seq::<char>::empty() =~= d);
}

/// An entry reads back.
proof fn lemma_field_reads(
    e: Style,
    s: Stores,
    open: Seq<Text>,
    ls: Seq<Line>,
    i: int,
    k: Text,
    v: Val,
    depth: int,
    refs: bool,
)
    requires
        resolves(e, s, open, ls),
        usable(e),
        entry_reads(e, k, v, refs),
        well_keyed(v),
        placed(ls, i, written_entry(e, k, v, depth, refs)),
        closed_at(ls, i + written_entry(e, k, v, depth, refs).len(), depth),
    ensures
        field(s, open, ls, depth, i) == good(
            (
                Some((k, read_entry(e, v, refs))),
                i + written_entry(e, k, v, depth, refs).len(),
            ),
            open,
        ),
    decreases v, 0int,
{
    let w = written_entry(e, k, v, depth, refs);
    match v {
        Val::Array(a) => {
            if a.len() == 0 {
                lemma_one_line_field(e, s, open, ls, i, k, v, depth, refs);
            } else {
                assert(decreases_to!(v => a));
                let t = key_text(k);
                lemma_array_parts(e, t, true, a, depth, depth + 1);
                lemma_head(e, Some(k), a);
                let h = array_header(head_text(t, a))->0;
                let line = seq![Line { depth, text: head_text(t, a) }];
                assert(w == line + body_lines(e, a, depth + 1));
                lemma_placed(ls, i, line, body_lines(e, a, depth + 1));
                lemma_array_reads(e, s, open, ls, i, depth, a, h);
            }
        },
        Val::Object(o) => {
            if o.len() == 0 {
                lemma_one_line_field(e, s, open, ls, i, k, v, depth, refs);
            } else if referred(e, v, refs) is Some {
                lemma_reference_field(e, s, open, ls, i, k, v, depth);
            } else {
                assert(decreases_to!(v => o));
                lemma_opening(e, ls, i, k, o, depth, refs);
                lemma_object_reads(e, s, open, ls, i + 1, o, depth + 1, 0, seq![]);
                lemma_nested_field(s, open, ls, i, k, depth, read_entries(e, o, 0, true), i + w.len());
            }
        },
        _ => {
            lemma_one_line_field(e, s, open, ls, i, k, v, depth, refs);
        },
    }
}

/// An entry whose entries stand below it reads back.
proof fn lemma_nested_field(
    s: Stores,
    open: Seq<Text>,
    ls: Seq<Line>,
    i: int,
    k: Text,
    depth: int,
    r: Entries,
    next: int,
)
    requires
        0 <= i,
        i + 1 < ls.len(),
        ls[i + 1].depth == depth + 1,
        !is_item(ls[i + 1].text),
        array_header(ls[i].text) is None,
        key_colon(ls[i].text) == Some(key_text(k).len() as int),
        key_before(ls[i].text, key_text(k).len() as int) == Ok::<(Text, int), Text>(
            (k, key_text(k).len() as int + 1),
        ),
        trim(
            ls[i].text.subrange(key_text(k).len() as int + 1, ls[i].text.len() as int),
        ).len() == 0,
        object_lines(s, open, ls, depth + 1, i + 1, seq![]) == good((r, next), open),
    ensures
        field(s, open, ls, depth, i) == good((Some((k, Val::Object(r))), next), open),
{
    assert(key_value(s, open, ls, i, depth, key_text(k).len() as int) == good(
        (k, Val::Object(r), next),
        open,
    ));
}

/// An entry that takes one line reads back.
proof fn lemma_one_line_field(
    e: Style,
    s: Stores,
    open: Seq<Text>,
    ls: Seq<Line>,
    i: int,
    k: Text,
    v: Val,
    depth: int,
    refs: bool,
)
    requires
        usable(e),
        entry_reads(e, k, v, refs),
        placed(ls, i, written_entry(e, k, v, depth, refs)),
        v matches Val::Array(a) ==> a.len() == 0,
        v matches Val::Object(o) ==> o.len() == 0,
    ensures
        written_entry(e, k, v, depth, refs).len() == 1,
        read_entry(e, v, refs) == v,
        field(s, open, ls, depth, i) == good((Some((k, v)), i + 1), open),
{
    let w = written_entry(e, k, v, depth, refs);
    let t = key_text(k);
    lemma_placed_first(ls, i, w);
    lemma_empty_inline(s, open);
    reveal_strlit(": []");
    reveal_strlit(": {}");
    reveal_strlit("[]");
    reveal_strlit("{}");
    reveal_strlit(": ");
    match v {
        Val::Array(a) => {
            assert(w[0].text =~= t + ": "@ + "[]"@);
            assert(a =~= seq![]);
            lemma_value_field(s, open, ls, i, depth, k, "[]"@, v);
        },
        Val::Object(o) => {
            assert(w[0].text =~= t + ": "@ + "{}"@);
            assert(o =~= seq![]);
            lemma_value_field(s, open, ls, i, depth, k, "{}"@, v);
        },
        _ => {
            let p = primitive_text(v, ',');
            lemma_primitive_reads(s, open, v);
            lemma_value_field(s, open, ls, i, depth, k, p, v);
        },
    }
}

/// An entry that is written as a reference reads back as the definition.
proof fn lemma_reference_field(
    e: Style,
    s: Stores,
    open: Seq<Text>,
    ls: Seq<Line>,
    i: int,
    k: Text,
    v: Val,
    depth: int,
)
    requires
        usable(e),
        resolves(e, s, open, ls),
        entry_reads(e, k, v, true),
        referred(e, v, true) is Some,
        placed(ls, i, written_entry(e, k, v, depth, true)),
    ensures
        written_entry(e, k, v, depth, true).len() == 1,
        field(s, open, ls, depth, i) == good((Some((k, read_entry(e, v, true))), i + 1), open),
{
    let w = written_entry(e, k, v, depth, true);
    let name = referred(e, v, true)->0;
    let p = reference_text(name);
    lemma_reference_line(e, k, v, depth);
    lemma_placed_first(ls, i, w);
    lemma_matching(e.schemas, v, 0);
    lemma_reference_text(name);
    let c = ls[i].text;
    let n = c.len() - p.len();
    assert(c.subrange(n, n + p.len()) =~= p);
    assert(refers(ls[i].text, name));
    lemma_value_field(s, open, ls, i, depth, k, p, entry(e.schemas, name)->0);
}

/// The line for an entry that is written as a reference.
proof fn lemma_reference_line(e: Style, k: Text, v: Val, depth: int)
    requires
        referred(e, v, true) is Some,
    ensures
        written_entry(e, k, v, depth, true) == seq![
            Line {
                depth,
                text: key_text(k) + ": "@ + reference_text(referred(e, v, true)->0),
            },
        ],
{
    let name = referred(e, v, true)->0;
    let w = written_entry(e, k, v, depth, true);
    let t = key_text(k);
    reveal_strlit(": @s:");
    reveal_strlit(": ");
    reveal_strlit("@s:");
    assert(": @s:"@ =~= ": "@ + "@s:"@);
    assert(t + ": @s:"@ + name =~= t + ": "@ + reference_text(name));
    assert(w =~= seq![Line { depth, text: t + ": "@ + reference_text(name) }]);
}

/// How a reference is written.
pub proof fn lemma_reference_text(name: Text)
    requires
        label_reads(name),
    ensures
        is_line(reference_text(name)),
        calm(reference_text(name)),
        reference_text(name).last() != ':',
        reference_text(name)[0] == '@',
{
    let p = reference_text(name);
    reveal_strlit("@s:");
    assert(is_even("@s:"@));
    lemma_calm_even("@s:"@);
    lemma_calm_concat("@s:"@, name);
    assert(p.last() == name.last());
    assert(!is_space(name[name.len() - 1]));
    assert(!is_space('@'));
    assert forall|j: int| 0 <= j < p.len() implies p[j] != '\n' by {
        if j >= 3 {
            assert(p[j] == name[j - 3]);
            assert(!is_space(name[j - 3]));
        }
    }
}

/// The line for an object with entries, and those behind it.
proof fn lemma_opening(e: Style, ls: Seq<Line>, i: int, k: Text, o: Entries, depth: int, refs: bool)
    requires
        usable(e),
        o.len() > 0,
        referred(e, Val::Object(o), refs) is None,
        entry_reads(e, k, Val::Object(o), refs),
        placed(ls, i, written_entry(e, k, Val::Object(o), depth, refs)),
    ensures
        ({
            let c = ls[i].text;
            let n = key_text(k).len() as int;
            let below = written_entries(e, o, depth + 1, 0);
            &&& written_entry(e, k, Val::Object(o), depth, refs).len() == below.len()
                + 1
            &&& placed(ls, i + 1, below)
            &&& array_header(c) is None
            &&& key_colon(c) == Some(n)
            &&& key_before(c, n) == Ok::<(Text, int), Text>((k, n + 1))
            &&& trim(c.subrange(n + 1, c.len() as int)).len() == 0
            &&& 0 <= i
            &&& i + 1 < ls.len()
            &&& ls[i + 1].depth == depth + 1
            &&& !is_item(ls[i + 1].text)
            &&& read_entries(e, o, 0, true).subrange(0, 0) == Entries::empty()
        }),
{
    let v = Val::Object(o);
    let t = key_text(k);
    let w = written_entry(e, k, v, depth, refs);
    reveal_strlit(":");
    let line = seq![Line { depth, text: t + ":"@ }];
    let below = written_entries(e, o, depth + 1, 0);
    assert(w == line + below);
    lemma_placed(ls, i, line, below);
    let c = ls[i].text;
    assert(c =~= t + seq![':'] + seq![]);
    lemma_key_line(k, seq![]);
    assert(c.subrange(c.len() as int, c.len() as int) =~= seq![]);
    assert(trim(Seq::<char>::empty()) =~= seq![]);
    assert(entries_read(e, o, 0, true));
    assert(entry_reads(e, o[0].0, o[0].1, true));
    lemma_entry_first(e, o[0].0, o[0].1, depth + 1, true);
    let first = written_entry(e, o[0].0, o[0].1, depth + 1, true);
    assert(below == first + written_entries(e, o, depth + 1, 1));
    lemma_placed(ls, i + 1, first, written_entries(e, o, depth + 1, 1));
    assert(read_entries(e, o, 0, true).subrange(0, 0) =~= Entries::empty());
}

/// The entries of an object from the `j`-th on read back.
proof fn lemma_object_reads(
    e: Style,
    s: Stores,
    open: Seq<Text>,
    ls: Seq<Line>,
    i: int,
    o: Entries,
    depth: int,
    j: int,
    done: Entries,
)
    requires
        resolves(e, s, open, ls),
        usable(e),
        0 <= j <= o.len(),
        distinct(o),
        entries_read(e, o, j, true),
        entries_well_keyed(o, j),
        placed(ls, i, written_entries(e, o, depth, j)),
        closed_at(ls, i + written_entries(e, o, depth, j).len(), depth - 1),
        done == read_entries(e, o, 0, true).subrange(0, j),
    ensures
        object_lines(s, open, ls, depth, i, done) == good(
            (read_entries(e, o, 0, true), i + written_entries(e, o, depth, j).len()),
            open,
        ),
    decreases o, o.len() - j,
{
    lemma_read_entries(e, o, 0, true);
    if j < o.len() {
        let k = o[j].0;
        let v = o[j].1;
        lemma_entry_smaller(o, j);
        let w = written_entry(e, k, v, depth, true);
        let rest = written_entries(e, o, depth, j + 1);
        lemma_placed(ls, i, w, rest);
        assert(entry_reads(e, k, v, true));
        assert(well_keyed(v));
        lemma_entry_first(e, k, v, depth, true);
        let n = i + w.len();
        if j + 1 < o.len() {
            assert(entries_read(e, o, j + 1, true));
            assert(entry_reads(e, o[j + 1].0, o[j + 1].1, true));
            lemma_entry_first(e, o[j + 1].0, o[j + 1].1, depth, true);
            let next = written_entry(e, o[j + 1].0, o[j + 1].1, depth, true);
            lemma_placed(ls, n, next, written_entries(e, o, depth, j + 2));
        }
        assert(closed_at(ls, n, depth));
        lemma_field_reads(e, s, open, ls, i, k, v, depth, true);
        assert forall|q: int| 0 <= q < done.len() implies (#[trigger] done[q]).0 != k by {
            assert(done[q] == read_entries(e, o, 0, true)[q]);
            assert(o[q].0 != o[j].0);
        }
        lemma_put_new(done, k, read_entry(e, v, true));
        let more = done.push((k, read_entry(e, v, true)));
        assert(more =~= read_entries(e, o, 0, true).subrange(0, j + 1));
        lemma_object_reads(e, s, open, ls, n, o, depth, j + 1, more);
    } else {
        assert(done =~= read_entries(e, o, 0, true));
    }
}

/// The other entries of an object that is a list item read back.
proof fn lemma_more_reads(
    e: Style,
    s: Stores,
    open: Seq<Text>,
    ls: Seq<Line>,
    i: int,
    o: Entries,
    depth: int,
    j: int,
    done: Entries,
)
    requires
        resolves(e, s, open, ls),
        usable(e),
        0 <= j <= o.len(),
        distinct(o),
        entries_read(e, o, j, false),
        entries_well_keyed(o, j),
        placed(ls, i, written_rest(e, o, depth, j)),
        closed_at(ls, i + written_rest(e, o, depth, j).len(), depth - 1),
        done == read_entries(e, o, 0, false).subrange(0, j),
    ensures
        more_fields(s, open, ls, depth, i, done) == good(
            (read_entries(e, o, 0, false), i + written_rest(e, o, depth, j).len()),
            open,
        ),
    decreases o, o.len() - j,
{
    lemma_read_entries(e, o, 0, false);
    if j < o.len() {
        let k = o[j].0;
        let v = o[j].1;
        lemma_entry_smaller(o, j);
        let w = written_entry(e, k, v, depth, false);
        let rest = written_rest(e, o, depth, j + 1);
        lemma_placed(ls, i, w, rest);
        assert(entry_reads(e, k, v, false));
        assert(well_keyed(v));
        lemma_entry_first(e, k, v, depth, false);
        let n = i + w.len();
        if j + 1 < o.len() {
            assert(entries_read(e, o, j + 1, false));
            assert(entry_reads(e, o[j + 1].0, o[j + 1].1, false));
            lemma_entry_first(e, o[j + 1].0, o[j + 1].1, depth, false);
            let next = written_entry(e, o[j + 1].0, o[j + 1].1, depth, false);
            lemma_placed(ls, n, next, written_rest(e, o, depth, j + 2));
        }
        assert(closed_at(ls, n, depth));
        lemma_field_reads(e, s, open, ls, i, k, v, depth, false);
        assert forall|q: int| 0 <= q < done.len() implies (#[trigger] done[q]).0 != k by {
            assert(done[q] == read_entries(e, o, 0, false)[q]);
            assert(o[q].0 != o[j].0);
        }
        lemma_put_new(done, k, read_entry(e, v, false));
        let more = done.push((k, read_entry(e, v, false)));
        assert(more =~= read_entries(e, o, 0, false).subrange(0, j + 1));
        lemma_more_reads(e, s, open, ls, n, o, depth, j + 1, more);
    } else {
        assert(done =~= read_entries(e, o, 0, false));
    }
}

/// An array reads back behind its header.
proof fn lemma_array_reads(
    e: Style,
    s: Stores,
    open: Seq<Text>,
    ls: Seq<Line>,
    i: int,
    base: int,
    a: Seq<Val>,
    h: Header,
)
    requires
        resolves(e, s, open, ls),
        usable(e),
        a.len() > 0,
        array_reads(e, a),
        items_well_keyed(a, 0),
        0 <= i < ls.len(),
        heads(h, h.key, a),
        placed(ls, i + 1, body_lines(e, a, base + 1)),
        !all_simple(a) ==> closed_at(ls, i + 1 + body_lines(e, a, base + 1).len(), base),
    ensures
        array_lines(s, open, ls, i, base, h) == good(
            (read_back(e, Val::Array(a)), i + 1 + body_lines(e, a, base + 1).len()),
            open,
        ),
    decreases a, a.len() + 1,
{
    if all_simple(a) {
        assert(a.subrange(0, 0) =~= seq![]);
        assert forall|j: int| 0 <= j < a.len() implies is_simple(#[trigger] a[j]) && token_reads(
            a[j],
        ) by {}
        lemma_delimited(s, open, a, 0, seq![]);
        assert(is_simple(a[0]));
        assert(table_fields(a) is None);
        lemma_simple_items(e, a, 0);
        assert(a.subrange(0, a.len() as int) =~= a);
    } else {
        match table_fields(a) {
            Some(f) => {
                assert(well_keyed(a[0]));
                assert(table_rows(a, f).subrange(0, 0) =~= seq![]);
                lemma_row_lines(a, f, base + 1, 0);
                lemma_table_lines(s, open, ls, i + 1, base + 1, a, f, 0, seq![]);
            },
            None => {
                lemma_read_items(e, a, 0);
                assert(read_items(e, a, 0).subrange(0, 0) =~= seq![]);
                lemma_items_reads(e, s, open, ls, i + 1, a, base, 0, seq![]);
            },
        }
    }
}

/// Primitives are read back as they are.
pub proof fn lemma_simple_items(e: Style, a: Seq<Val>, i: int)
    requires
        all_simple(a),
        0 <= i <= a.len(),
    ensures
        read_items(e, a, i) == a.subrange(i, a.len() as int),
    decreases a.len() - i,
{
    if i < a.len() {
        lemma_simple_items(e, a, i + 1);
        assert(is_simple(a[i]));
        assert(read_item(e, a[i]) == a[i]);
        assert(read_items(e, a, i) =~= seq![a[i]] + a.subrange(i + 1, a.len() as int));
        assert(read_items(e, a, i) =~= a.subrange(i, a.len() as int));
    }
}

/// The list items from the `j`-th on read back.
proof fn lemma_items_reads(
    e: Style,
    s: Stores,
    open: Seq<Text>,
    ls: Seq<Line>,
    i: int,
    a: Seq<Val>,
    base: int,
    j: int,
    done: Seq<Val>,
)
    requires
        resolves(e, s, open, ls),
        usable(e),
        0 <= j <= a.len(),
        items_read(e, a, j),
        items_well_keyed(a, j),
        placed(ls, i, written_items(e, a, base + 1, j)),
        closed_at(ls, i + written_items(e, a, base + 1, j).len(), base),
        done == read_items(e, a, 0).subrange(0, j),
    ensures
        expanded_lines(s, open, ls, base, a.len(), i, done) == good(
            (read_items(e, a, 0), i + written_items(e, a, base + 1, j).len()),
            open,
        ),
    decreases a, a.len() - j,
{
    lemma_read_items(e, a, 0);
    if j < a.len() {
        let v = a[j];
        lemma_item_smaller(a, j);
        let w = written_item(e, v, base + 1);
        let rest = written_items(e, a, base + 1, j + 1);
        lemma_placed(ls, i, w, rest);
        let n = i + w.len();
        if j + 1 < a.len() {
            assert(items_read(e, a, j + 1));
            assert(item_reads(e, a[j + 1]));
            lemma_item_first(e, a[j + 1], base + 1);
            let next = written_item(e, a[j + 1], base + 1);
            lemma_placed(ls, n, next, written_items(e, a, base + 1, j + 2));
        }
        assert(closed_at(ls, n, base + 1));
        let more = done.push(read_item(e, v));
        assert(more =~= read_items(e, a, 0).subrange(0, j + 1));
        assert(item_reads(e, v));
        assert(well_keyed(v));
        lemma_item_reads(e, s, open, ls, i, v, base, a.len(), done);
        lemma_items_reads(e, s, open, ls, n, a, base, j + 1, more);
    } else {
        assert(done =~= read_items(e, a, 0));
    }
}

/// A list item begins with a line at its depth.
pub proof fn lemma_item_first(e: Style, v: Val, depth: int)
    requires
        item_reads(e, v),
    ensures
        ({
            let w = written_item(e, v, depth);
            &&& w.len() > 0
            &&& w[0].depth == depth
            &&& is_item(w[0].text)
        }),
{
    let w = written_item(e, v, depth);
    reveal_strlit("- ");
    reveal_strlit("- {}");
    reveal_strlit("- []");
    reveal_strlit("- @s:");
    match v {
        Val::Object(o) => {
            if o.len() > 0 && matching_schema(e.schemas, v, 0) is None {
                let first = written_first(e, o[0].0, o[0].1, depth);
                assert(w == written_object_item(e, o, depth));
                assert(w == first + written_rest(e, o, depth + 1, 1));
                assert(first.len() > 0);
                assert(w[0] == first[0]);
                assert(first[0].text.subrange(0, 2) =~= "- "@);
            } else {
                assert(w[0].text.subrange(0, 2) =~= "- "@);
            }
        },
        _ => {
            assert(w[0].text.subrange(0, 2) =~= "- "@);
        },
    }
}

/// What stands behind the dash of a list item.
pub proof fn lemma_item_text(c: Text)
    ensures
        is_item("- "@ + c),
        item_text("- "@ + c) == c,
{
    reveal_strlit("- ");
    assert(("- "@ + c).subrange(0, 2) =~= "- "@);
    assert(item_text("- "@ + c) =~= c);
}

/// A list item reads back.
proof fn lemma_item_reads(
    e: Style,
    s: Stores,
    open: Seq<Text>,
    ls: Seq<Line>,
    i: int,
    v: Val,
    base: int,
    n: nat,
    done: Seq<Val>,
)
    requires
        resolves(e, s, open, ls),
        usable(e),
        item_reads(e, v),
        well_keyed(v),
        done.len() < n,
        placed(ls, i, written_item(e, v, base + 1)),
        closed_at(ls, i + written_item(e, v, base + 1).len(), base + 1),
    ensures
        expanded_lines(s, open, ls, base, n, i, done) == expanded_lines(
            s,
            open,
            ls,
            base,
            n,
            i + written_item(e, v, base + 1).len(),
            done.push(read_item(e, v)),
        ),
    decreases v, 0int,
{
    let w = written_item(e, v, base + 1);
    lemma_item_first(e, v, base + 1);
    lemma_placed_first(ls, i, w);
    lemma_empty_inline(s, open);
    reveal_strlit("- {}");
    reveal_strlit("- []");
    reveal_strlit("- ");
    reveal_strlit("[]");
    reveal_strlit("{}");
    match v {
        Val::Object(o) => {
            if o.len() == 0 {
                assert(w[0].text =~= "- "@ + "{}"@);
                lemma_item_text("{}"@);
                lemma_empty_no_colon();
                assert(o =~= seq![]);
                assert(read_item(e, v) == v);
            } else if matching_schema(e.schemas, v, 0) is Some {
                lemma_reference_item(e, s, open, ls, i, v, base + 1);
            } else {
                assert(decreases_to!(v => o));
                assert(w == written_object_item(e, o, base + 1));
                lemma_object_item_reads(e, s, open, ls, i, o, base);
                let item = item_text(ls[i].text);
                let t = list_item(s, open, ls, i, base);
            }
        },
        Val::Array(a) => {
            if a.len() == 0 {
                assert(w[0].text =~= "- "@ + "[]"@);
                lemma_item_text("[]"@);
                lemma_empty_no_colon();
                assert(a =~= seq![]);
                assert(read_item(e, v) == v);
            } else {
                assert(decreases_to!(v => a));
                lemma_array_item_reads(e, s, open, ls, i, a, base);
                lemma_header_colon(item_text(ls[i].text));
            }
        },
        _ => {
            let p = primitive_text(v, ',');
            lemma_item_text(p);
            lemma_listed(v);
            lemma_primitive_reads(s, open, v);
        },
    }
}

/// The texts of an empty array and an empty object hold no colon, and are not
/// taken for the header of an array.
pub proof fn lemma_empty_no_colon()
    ensures
        !has_colon("[]"@),
        !has_colon("{}"@),
        array_header("[]"@) is None,
        array_header("{}"@) is None,
{
    reveal_strlit("[]");
    reveal_strlit("{}");
    lemma_behind_quotes("[]"@);
    lemma_behind_quotes("{}"@);
    lemma_find_from("[]"@, ':', behind_quotes("[]"@));
    lemma_find_from("{}"@, ':', behind_quotes("{}"@));
    lemma_no_colon("[]"@);
    lemma_no_colon("{}"@);
}

/// A list item that is a reference reads back as what it refers to.
pub proof fn lemma_reference_item(
    e: Style,
    s: Stores,
    open: Seq<Text>,
    ls: Seq<Line>,
    i: int,
    v: Val,
    depth: int,
)
    requires
        resolves(e, s, open, ls),
        usable(e),
        item_reads(e, v),
        v is Object,
        v->Object_0.len() > 0,
        matching_schema(e.schemas, v, 0) is Some,
        placed(ls, i, written_item(e, v, depth)),
    ensures
        ({
            let item = item_text(ls[i].text);
            &&& written_item(e, v, depth).len() == 1
            &&& array_header(item) is None
            &&& is_inline_item(item)
            &&& inline_value(s, open, item) == (read_item(e, v), open)
        }),
{
    let name = matching_schema(e.schemas, v, 0)->0;
    let w = written_item(e, v, depth);
    let p = reference_text(name);
    lemma_placed_first(ls, i, w);
    lemma_dash_reference(name);
    assert(w[0].text == "- "@ + p);
    lemma_item_text(p);
    lemma_reference_no_header(name);
    lemma_matching(e.schemas, v, 0);
    reveal_strlit("- ");
    assert(ls[i].text.subrange(2, 2 + p.len() as int) =~= p);
    assert(refers(ls[i].text, name));
}

/// A reference behind a dash.
pub proof fn lemma_dash_reference(name: Text)
    ensures
        "- @s:"@ + name == "- "@ + reference_text(name),
{
    reveal_strlit("- @s:");
    reveal_strlit("- ");
    reveal_strlit("@s:");
    assert("- @s:"@ + name =~= "- "@ + reference_text(name));
}

/// A reference is no header, and a value on one line.
pub proof fn lemma_reference_no_header(name: Text)
    ensures
        array_header(reference_text(name)) is None,
        is_inline_item(reference_text(name)),
{
    let p = reference_text(name);
    reveal(array_header);
    reveal_strlit("@s:");
    assert(p.subrange(0, 3) =~= "@s:"@);
    assert(p[0] == '@' && p[1] == 's' && p[2] == ':');
    lemma_find_at(p, ':', 2);
    lemma_find_from(p, '[', 0);
}

/// What does not begin with an at sign is no reference.
pub proof fn lemma_no_reference(t: Text)
    requires
        t.len() > 0,
        t[0] != '@',
    ensures
        !is_reference(t),
{
    reveal_strlit("@s:");
    reveal_strlit("@r:");
    reveal_strlit("@sec:");
    if starts_with(t, "@s:"@) {
        assert(t.subrange(0, 3)[0] == t[0]);
    }
    if starts_with(t, "@r:"@) {
        assert(t.subrange(0, 3)[0] == t[0]);
    }
    if starts_with(t, "@sec:"@) {
        assert(t.subrange(0, 5)[0] == t[0]);
    }
}

/// A list item that is an array reads back.
proof fn lemma_array_item_reads(
    e: Style,
    s: Stores,
    open: Seq<Text>,
    ls: Seq<Line>,
    i: int,
    a: Seq<Val>,
    base: int,
)
    requires
        resolves(e, s, open, ls),
        usable(e),
        a.len() > 0,
        array_reads(e, a),
        items_well_keyed(a, 0),
        placed(ls, i, written_item(e, Val::Array(a), base + 1)),
        closed_at(ls, i + written_item(e, Val::Array(a), base + 1).len(), base + 1),
    ensures
        ({
            let n = i + written_item(e, Val::Array(a), base + 1).len();
            array_header(item_text(ls[i].text)) matches Some(h) && h.key is None && match h.inline {
                Some(x) => delimited(s, open, x, h.delimiter, 0, seq![]) == (
                    read_back(e, Val::Array(a))->Array_0,
                    open,
                ) && read_back(e, Val::Array(a)) is Array && n == i + 1,
                None => array_lines(
                    s,
                    open,
                    ls,
                    i,
                    item_base(base + 1, depth_at(ls, i + 1)),
                    h,
                ) == good((read_back(e, Val::Array(a)), n), open) && n > i,
            }
        }),
    decreases a, a.len() + 2,
{
    let none: Text = seq![];
    let w = written_item(e, Val::Array(a), base + 1);
    let c = head_text(none, a);
    let body = body_lines(e, a, base + 3);
    lemma_dash_head(none, a);
    lemma_array_parts(e, "- "@, true, a, base + 1, base + 3);
    let line = seq![Line { depth: base + 1, text: "- "@ + c }];
    assert(w == line + body);
    lemma_placed(ls, i, line, body);
    lemma_placed_first(ls, i, line);
    lemma_item_text(c);
    lemma_head(e, None, a);
    let h = array_header(c)->0;
    if all_simple(a) {
        assert forall|j: int| 0 <= j < a.len() implies is_simple(#[trigger] a[j]) && token_reads(
            a[j],
        ) by {}
        assert(a.subrange(0, 0) =~= seq![]);
        lemma_delimited(s, open, a, 0, seq![]);
        assert(is_simple(a[0]));
        lemma_simple_items(e, a, 0);
        assert(a.subrange(0, a.len() as int) =~= a);
    } else {
        lemma_body_first(e, a, base + 3);
        lemma_placed_first(ls, i + 1, body);
        lemma_array_reads(e, s, open, ls, i, base + 2, a, h);
    }
}

/// An object that is a list item reads back.
pub proof fn lemma_object_item_reads(
    e: Style,
    s: Stores,
    open: Seq<Text>,
    ls: Seq<Line>,
    i: int,
    o: Entries,
    base: int,
)
    requires
        resolves(e, s, open, ls),
        usable(e),
        o.len() > 0,
        distinct(o),
        entries_well_keyed(o, 0),
        first_reads(e, o[0].0, o[0].1),
        entries_read(e, o, 1, false),
        placed(ls, i, written_object_item(e, o, base + 1)),
        closed_at(ls, i + written_object_item(e, o, base + 1).len(), base + 1),
    ensures
        ({
            let item = item_text(ls[i].text);
            &&& !is_inline_item(item)
            &&& array_header(item) matches Some(h) ==> h.key is Some
            &&& list_item(s, open, ls, i, base) == good(
                (
                    read_entries(e, o, 0, false),
                    i + written_object_item(e, o, base + 1).len(),
                ),
                open,
            )
        }),
    decreases o, o.len() + 1,
{
    let k = o[0].0;
    let v = o[0].1;
    let first = written_first(e, k, v, base + 1);
    let rest = written_rest(e, o, base + 2, 1);
    lemma_placed(ls, i, first, rest);
    let n = i + first.len();
    lemma_entry_smaller(o, 0);
    assert(well_keyed(v));
    if o.len() > 1 {
        assert(entry_reads(e, o[1].0, o[1].1, false));
        lemma_entry_first(e, o[1].0, o[1].1, base + 2, false);
        let next = written_entry(e, o[1].0, o[1].1, base + 2, false);
        lemma_placed(ls, n, next, written_rest(e, o, base + 2, 2));
    } else {
        assert(rest =~= seq![]);
    }
    assert(closed_at(ls, n, base + 2));
    lemma_first_reads(e, s, open, ls, i, k, v, base);
    lemma_read_entries(e, o, 0, false);
    let head = seq![(k, read_entry(e, v, false))];
    assert(head =~= read_entries(e, o, 0, false).subrange(0, 1));
    lemma_more_reads(e, s, open, ls, n, o, base + 2, 1, head);
}

/// The first entry of an object that is a list item reads back.
proof fn lemma_first_reads(
    e: Style,
    s: Stores,
    open: Seq<Text>,
    ls: Seq<Line>,
    i: int,
    k: Text,
    v: Val,
    base: int,
)
    requires
        resolves(e, s, open, ls),
        usable(e),
        first_reads(e, k, v),
        well_keyed(v),
        placed(ls, i, written_first(e, k, v, base + 1)),
        closed_at(ls, i + written_first(e, k, v, base + 1).len(), base + 2),
    ensures
        ({
            let item = item_text(ls[i].text);
            let n = i + written_first(e, k, v, base + 1).len();
            &&& n > i
            &&& !is_inline_item(item)
            &&& array_header(item) matches Some(h) ==> h.key is Some
            &&& item_head(s, open, ls, i, base) == good(
                (seq![(k, read_entry(e, v, false))], n),
                open,
            )
        }),
    decreases v, 0int,
{
    let w = written_first(e, k, v, base + 1);
    lemma_placed_first(ls, i, w);
    let item = item_text(ls[i].text);
    lemma_key_text(k);
    if v is Array && v->Array_0.len() > 0 {
        let a = v->Array_0;
        assert(decreases_to!(v => a));
        lemma_first_array_reads(e, s, open, ls, i, k, a, base);
    } else if v is Object && v->Object_0.len() > 0 {
        let o = v->Object_0;
        assert(decreases_to!(v => o));
        lemma_first_object_reads(e, s, open, ls, i, k, o, base);
    } else {
        lemma_first_value(e, s, open, k, v, base + 1);
        let end = key_text(k).len() as int + 1;
        let rest = trim(item.subrange(end, item.len() as int));
        assert(leading_key(item) == Ok::<(Text, int), Text>((k, end)));
        assert(rest.len() > 0);
        assert(inline_value(s, open, rest) == (v, open));
        lemma_no_reference(item);
    }
}

/// An object under the first key of a list item reads back.
proof fn lemma_first_object_reads(
    e: Style,
    s: Stores,
    open: Seq<Text>,
    ls: Seq<Line>,
    i: int,
    k: Text,
    o: Entries,
    base: int,
)
    requires
        resolves(e, s, open, ls),
        usable(e),
        o.len() > 0,
        first_reads(e, k, Val::Object(o)),
        well_keyed(Val::Object(o)),
        placed(ls, i, written_first(e, k, Val::Object(o), base + 1)),
        closed_at(ls, i + written_first(e, k, Val::Object(o), base + 1).len(), base + 2),
    ensures
        ({
            let item = item_text(ls[i].text);
            let n = i + written_first(e, k, Val::Object(o), base + 1).len();
            &&& n > i
            &&& !is_inline_item(item)
            &&& array_header(item) is None
            &&& item_head(s, open, ls, i, base) == good(
                (seq![(k, read_entry(e, Val::Object(o), false))], n),
                open,
            )
        }),
    decreases o, o.len() + 2,
{
    let w = written_first(e, k, Val::Object(o), base + 1);
    lemma_placed_first(ls, i, w);
    lemma_first_object(e, k, o, base + 1);
    let body = written_entries(e, o, base + 3, 0);
    let line = seq![Line { depth: base + 1, text: "- "@ + (key_text(k) + ":"@) }];
    assert(w == line + body);
    lemma_placed(ls, i, line, body);
    lemma_placed_first(ls, i + 1, body);
    lemma_item_text(key_text(k) + ":"@);
    lemma_read_entries(e, o, 0, true);
    assert(read_entries(e, o, 0, true).subrange(0, 0) =~= seq![]);
    lemma_object_reads(e, s, open, ls, i + 1, o, base + 3, 0, seq![]);
}

/// An array under the first key of a list item reads back.
proof fn lemma_first_array_reads(
    e: Style,
    s: Stores,
    open: Seq<Text>,
    ls: Seq<Line>,
    i: int,
    k: Text,
    a: Seq<Val>,
    base: int,
)
    requires
        resolves(e, s, open, ls),
        usable(e),
        a.len() > 0,
        first_reads(e, k, Val::Array(a)),
        items_well_keyed(a, 0),
        placed(ls, i, written_first(e, k, Val::Array(a), base + 1)),
        closed_at(ls, i + written_first(e, k, Val::Array(a), base + 1).len(), base + 2),
    ensures
        ({
            let item = item_text(ls[i].text);
            let n = i + written_first(e, k, Val::Array(a), base + 1).len();
            &&& n > i
            &&& !is_inline_item(item)
            &&& array_header(item) matches Some(h) ==> h.key is Some
            &&& item_head(s, open, ls, i, base) == good(
                (seq![(k, read_back(e, Val::Array(a)))], n),
                open,
            )
        }),
    decreases a, a.len() + 2,
{
    let t = key_text(k);
    let c = head_text(t, a);
    let body = body_lines(e, a, base + 3);
    let line = seq![Line { depth: base + 1, text: "- "@ + c }];
    lemma_first_array(e, k, a, base + 1);
    lemma_placed(ls, i, line, body);
    lemma_placed_first(ls, i, line);
    lemma_item_text(c);
    let h = array_header(c)->0;
    let at = item_base(base + 1, depth_at(ls, i + 1));
    lemma_header_colon(c);
    lemma_no_reference(c);
    if all_simple(a) {
        assert(body_lines(e, a, at + 1) =~= body);
    } else {
        lemma_body_first(e, a, base + 3);
        lemma_placed_first(ls, i + 1, body);
        assert(at == base + 2);
    }
    lemma_array_reads(e, s, open, ls, i, at, a, h);
}

/// The lines for the first entry of an object that is a list item, where it is
/// an object with entries.
pub proof fn lemma_first_object(e: Style, k: Text, o: Entries, depth: int)
    requires
        o.len() > 0,
        first_reads(e, k, Val::Object(o)),
    ensures
        written_first(e, k, Val::Object(o), depth) == seq![
            Line { depth, text: "- "@ + (key_text(k) + ":"@) },
        ] + written_entries(e, o, depth + 2, 0),
        leading_key(key_text(k) + ":"@) == Ok::<(Text, int), Text>((k, key_text(k).len() as int + 1)),
        trim(Seq::<char>::empty()).len() == 0,
        (key_text(k) + ":"@).subrange(
            key_text(k).len() as int + 1,
            key_text(k).len() as int + 1,
        ) == Seq::<char>::empty(),
        (key_text(k) + ":"@).len() == key_text(k).len() + 1,
        written_entries(e, o, depth + 2, 0).len() > 0,
        written_entries(e, o, depth + 2, 0)[0].depth == depth + 2,
        !is_inline_item(key_text(k) + ":"@),
        array_header(key_text(k) + ":"@) is None,
{
    let t = key_text(k);
    let c = t + ":"@;
    reveal_strlit(":");
    reveal_strlit("- ");
    lemma_key_text(k);
    let none: Text = seq![];
    assert(c =~= t + seq![':'] + none);
    lemma_key_line(k, none);
    assert(trim(none) =~= none);
    assert(c.subrange(t.len() as int + 1, t.len() as int + 1) =~= none);
    let body = written_entries(e, o, depth + 2, 0);
    assert(("- "@ + t) + ":"@ =~= "- "@ + c);
    assert(written_first(e, k, Val::Object(o), depth) =~= seq![Line { depth, text: "- "@ + c }]
        + body);
    assert(entry_reads(e, o[0].0, o[0].1, true));
    lemma_entry_first(e, o[0].0, o[0].1, depth + 2, true);
    assert(body == written_entry(e, o[0].0, o[0].1, depth + 2, true) + written_entries(
        e,
        o,
        depth + 2,
        1,
    ));
    assert(c[t.len() as int] == ':');
    assert(c[0] == t[0]);
    lemma_no_reference(c);
}

/// The lines for the first entry of an object that is a list item, where it is
/// an array with items.
pub proof fn lemma_first_array(e: Style, k: Text, a: Seq<Val>, depth: int)
    requires
        usable(e),
        a.len() > 0,
        first_reads(e, k, Val::Array(a)),
    ensures
        written_first(e, k, Val::Array(a), depth) == seq![
            Line { depth, text: "- "@ + head_text(key_text(k), a) },
        ] + body_lines(e, a, depth + 2),
        array_header(head_text(key_text(k), a)) matches Some(h) && heads(h, Some(k), a),
        head_text(key_text(k), a).len() > 0,
        head_text(key_text(k), a)[0] != '@',
{
    let t = key_text(k);
    lemma_dash_head(t, a);
    lemma_array_parts(e, "- "@ + t, true, a, depth, depth + 2);
    lemma_head(e, Some(k), a);
    lemma_key_text(k);
    assert(head_text(t, a)[0] == t[0]);
}

/// The line for the first entry of an object that is a list item, where its
/// value stands on the line.
pub proof fn lemma_first_value(e: Style, s: Stores, open: Seq<Text>, k: Text, v: Val, depth: int)
    requires
        usable(e),
        first_reads(e, k, v),
        v matches Val::Array(a) ==> a.len() == 0,
        v matches Val::Object(o) ==> o.len() == 0,
    ensures
        ({
            let w = written_first(e, k, v, depth);
            let item = item_text(w[0].text);
            let end = key_text(k).len() as int + 1;
            let rest = trim(item.subrange(end, item.len() as int));
            &&& w.len() == 1
            &&& item.len() > 0
            &&& item[0] != '@'
            &&& has_colon(item)
            &&& array_header(item) is None
            &&& leading_key(item) == Ok::<(Text, int), Text>((k, end))
            &&& rest.len() > 0
            &&& inline_value(s, open, rest) == (v, open)
            &&& read_entry(e, v, false) == v
        }),
{
    let w = written_first(e, k, v, depth);
    let p = flat_text(v);
    let line = key_text(k) + ": "@ + p;
    lemma_first_text(e, k, v, depth);
    lemma_item_text(line);
    lemma_empty_inline(s, open);
    match v {
        Val::Array(a) => {
            assert(a =~= seq![]);
        },
        Val::Object(o) => {
            assert(o =~= seq![]);
        },
        _ => {
            lemma_primitive_reads(s, open, v);
        },
    }
    lemma_pair(k, p);
    lemma_key_text(k);
    assert(line[0] == key_text(k)[0]);
}

/// How a primitive, an empty array or an empty object is written on a line.
pub open spec fn flat_text(v: Val) -> Text {
    match v {
        Val::Array(_) => "[]"@,
        Val::Object(_) => "{}"@,
        _ => primitive_text(v, ','),
    }
}

/// The line for the first entry of an object that is a list item, where its
/// value stands on the line.
pub proof fn lemma_first_text(e: Style, k: Text, v: Val, depth: int)
    requires
        usable(e),
        v matches Val::Array(a) ==> a.len() == 0,
        v matches Val::Object(o) ==> o.len() == 0,
    ensures
        written_first(e, k, v, depth) == seq![
            Line { depth, text: "- "@ + (key_text(k) + ": "@ + flat_text(v)) },
        ],
        key_text(k) + ": []"@ == key_text(k) + ": "@ + "[]"@,
        key_text(k) + ": {}"@ == key_text(k) + ": "@ + "{}"@,
{
    let w = written_first(e, k, v, depth);
    let t = key_text(k);
    reveal_strlit("- ");
    reveal_strlit(": []");
    reveal_strlit(": {}");
    reveal_strlit(": ");
    reveal_strlit("[]");
    reveal_strlit("{}");
    assert(t + ": []"@ =~= t + ": "@ + "[]"@);
    assert(t + ": {}"@ =~= t + ": "@ + "{}"@);
    assert(w[0].text =~= "- "@ + (t + ": "@ + flat_text(v)));
    assert(w[0] == (Line { depth, text: "- "@ + (t + ": "@ + flat_text(v)) }));
    assert(w =~= seq![Line { depth, text: "- "@ + (t + ": "@ + flat_text(v)) }]);
}

/// A key and what stands behind it read back.
proof fn lemma_pair(k: Text, p: Text)
    requires
        key_reads(k),
        is_trim(p),
    ensures
        ({
            let line = key_text(k) + ": "@ + p;
            let end = key_text(k).len() as int + 1;
            &&& has_colon(line)
            &&& array_header(line) is None
            &&& leading_key(line) == Ok::<(Text, int), Text>((k, end))
            &&& trim(line.subrange(end, line.len() as int)) == p
        }),
{
    let t = key_text(k);
    let line = t + ": "@ + p;
    let after = seq![' '] + p;
    reveal_strlit(": ");
    assert(line =~= t + seq![':'] + after);
    lemma_key_line(k, after);
    assert(line.subrange(t.len() as int + 1, line.len() as int) =~= after);
    lemma_trim_of_trim(p);
    assert(line[t.len() as int] == ':');
}

// ---------------------------------------------------------------------------
// Lines that are written nest

/// Whether `t` leaves a reader outside of everything, and holds no semicolon
/// outside of quotes.
pub open spec fn calm(t: Text) -> bool {
    place_at(t, t.len() as int) == outside() && no_open_semi(t)
}

/// Whether `t` leaves a reader outside of everything, and holds no `c` outside of
/// quotes.
pub open spec fn shuts(t: Text, c: char) -> bool {
    &&& place_at(t, t.len() as int) == outside()
    &&& forall|j: int|
        0 <= j < t.len() && t[j] == c ==> (#[trigger] place_at(t, j)).skip || place_at(t, j).quoted
}

/// Texts one behind the other that hold no `c` outside of quotes.
proof fn lemma_shuts_concat(a: Text, b: Text, c: char)
    requires
        shuts(a, c),
        shuts(b, c),
    ensures
        shuts(a + b, c),
{
    let s = a + b;
    lemma_place_behind(a, b, b.len() as int);
    assert forall|j: int| 0 <= j < s.len() && s[j] == c implies (#[trigger] place_at(s, j)).skip
        || place_at(s, j).quoted by {
        if j < a.len() {
            lemma_place_same(s, a, j);
            assert(a[j] == c);
            assert(place_at(a, j).skip || place_at(a, j).quoted);
        } else {
            lemma_place_behind(a, b, j - a.len());
            assert(b[j - a.len()] == c);
            assert(place_at(b, j - a.len()).skip || place_at(b, j - a.len()).quoted);
        }
    }
}

/// Calm texts one behind the other.
pub proof fn lemma_calm_concat(a: Text, b: Text)
    requires
        calm(a),
        calm(b),
    ensures
        calm(a + b),
{
    assert(shuts(a, ';') && shuts(b, ';'));
    lemma_shuts_concat(a, b, ';');
}

/// Whether no character is a quote, a brace, a bracket or a semicolon.
pub open spec fn is_even(t: Text) -> bool {
    no_quotes_or_braces(t) && !t.contains(';')
}

/// A text without quotes, braces, brackets and semicolons is calm.
pub proof fn lemma_calm_even(t: Text)
    requires
        is_even(t),
    ensures
        calm(t),
{
    lemma_place_outside(t, t.len() as int);
}

/// A text without quotes, braces, brackets and `c` holds no `c` outside of quotes.
proof fn lemma_shuts_even(t: Text, c: char)
    requires
        no_quotes_or_braces(t),
        !t.contains(c),
    ensures
        shuts(t, c),
{
    lemma_place_outside(t, t.len() as int);
}

/// A token holds no character with a meaning outside of quotes.
proof fn lemma_shuts_token(p: Text, c: char)
    requires
        is_token(p),
        unsafe_in_key(c),
        c != '"',
        c != '\\',
    ensures
        shuts(p, c),
{
    let none: Text = seq![];
    assert(p + none =~= p);
    lemma_token_place(p, none);
    assert forall|j: int| 0 <= j < p.len() && p[j] == c implies (#[trigger] place_at(p, j)).skip
        || place_at(p, j).quoted by {
        lemma_token_closed(p, none, c, j);
    }
}

/// A token is calm.
proof fn lemma_calm_token(p: Text)
    requires
        is_token(p),
    ensures
        calm(p),
{
    lemma_shuts_token(p, ';');
}

/// A text in braces or brackets.
spec fn wrapped(mid: Text, bracket: bool) -> Text {
    if bracket {
        seq!['['] + mid + seq![']']
    } else {
        seq!['{'] + mid + seq!['}']
    }
}

/// Inside a pair of braces or brackets a reader is as deep as without them, and
/// one deeper.
proof fn lemma_place_inside(mid: Text, bracket: bool, n: int)
    requires
        0 <= n <= mid.len(),
    ensures
        ({
            let p = place_at(mid, n);
            place_at(wrapped(mid, bracket), n + 1) == if bracket {
                Place { bracket: p.bracket + 1, ..p }
            } else {
                Place { brace: p.brace + 1, ..p }
            }
        }),
    decreases n,
{
    let t = wrapped(mid, bracket);
    reveal_with_fuel(place_at, 2);
    if n > 0 {
        lemma_place_inside(mid, bracket, n - 1);
        assert(t[n] == mid[n - 1]);
        assert(place_at(t, n + 1) == step(place_at(t, n), t[n]));
        assert(place_at(mid, n) == step(place_at(mid, n - 1), mid[n - 1]));
    } else {
        assert(place_at(t, 1) == step(outside(), t[0]));
    }
}

/// A text in braces or brackets holds no `c` outside of quotes where the text
/// does not.
proof fn lemma_shuts_wrapped(mid: Text, bracket: bool, c: char)
    requires
        shuts(mid, c),
        c == ';' || c == ':',
    ensures
        shuts(wrapped(mid, bracket), c),
{
    let t = wrapped(mid, bracket);
    lemma_place_inside(mid, bracket, mid.len() as int);
    assert(place_at(t, t.len() as int) == step(place_at(t, t.len() - 1), t[t.len() - 1]));
    assert forall|j: int| 0 <= j < t.len() && t[j] == c implies (#[trigger] place_at(t, j)).skip
        || place_at(t, j).quoted by {
        if 0 < j < t.len() - 1 {
            assert(mid[j - 1] == c);
            lemma_place_inside(mid, bracket, j - 1);
            assert(place_at(mid, j - 1).skip || place_at(mid, j - 1).quoted);
        }
    }
}

/// Tokens that are joined hold no `c` outside of quotes.
proof fn lemma_shuts_joined(parts: Seq<Text>, sep: Text, i: int, c: char)
    requires
        0 <= i <= parts.len(),
        no_quotes_or_braces(sep),
        !sep.contains(c),
        c == ';' || c == ':',
        forall|j: int| 0 <= j < parts.len() ==> is_token(#[trigger] parts[j]),
    ensures
        shuts(joined(parts, sep, i), c),
    decreases parts.len() - i,
{
    if i < parts.len() {
        lemma_shuts_joined(parts, sep, i + 1, c);
        assert(is_token(parts[i]));
        lemma_shuts_token(parts[i], c);
        let lead = if i > 0 {
            sep
        } else {
            seq![]
        };
        lemma_shuts_even(lead, c);
        lemma_shuts_concat(lead, parts[i], c);
        lemma_shuts_concat(lead + parts[i], joined(parts, sep, i + 1), c);
    } else {
        let none: Text = seq![];
        assert(joined(parts, sep, i) =~= none);
        lemma_shuts_even(none, c);
    }
}

/// Whether a line is read as it was written: it can stand on one line with
/// others, is neither a directive nor a definition, and opens as many levels for
/// one reader as for another.
pub open spec fn good_line(l: Line) -> bool {
    let t = l.text;
    &&& is_segment(t)
    &&& is_shut(t)
    &&& !is_silent(t)
    &&& definition_kind(t) is None
    &&& levels_begun(t) == levels_opened(t)
}

/// Whether a line opens as many levels for a reader as for the minifier. What
/// does not is a list item that ends with a colon.
pub open spec fn is_single(l: Line) -> bool {
    expected_depth(l.text, l.depth) == l.depth + levels_opened(l.text)
}

/// Whether the line `next` can stand behind `l`: no deeper than that lets it,
/// and two levels below a list item that ends with a colon.
pub open spec fn follows(l: Line, next: Line) -> bool {
    if is_single(l) {
        next.depth <= l.depth + levels_opened(l.text)
    } else {
        next.depth == l.depth + levels_opened(l.text) == expected_depth(l.text, l.depth) + 1
    }
}

/// Whether `w` are good lines that begin at depth `d`, where none stands before
/// that depth, each can stand behind the one before it, and anything behind the
/// last.
pub open spec fn is_block(w: Seq<Line>, d: int) -> bool {
    &&& w.len() > 0
    &&& w[0].depth == d
    &&& forall|i: int| 0 <= i < w.len() ==> (#[trigger] w[i]).depth >= d && good_line(w[i])
    &&& forall|i: int| 0 <= i < w.len() - 1 ==> follows(#[trigger] w[i], w[i + 1])
    &&& is_single(w.last())
}

/// Whether the lines of `w` at depth `d` open no more than one level.
pub open spec fn is_level(w: Seq<Line>, d: int) -> bool {
    forall|i: int| 0 <= i < w.len() && (#[trigger] w[i]).depth <= d ==> is_single(w[i])
}

/// Whether `w` can be the lines of a document.
pub open spec fn is_document(w: Seq<Line>) -> bool {
    is_block(w, 0) && is_level(w, 0)
}

/// Lines one behind the other are level where they are.
pub proof fn lemma_level_concat(a: Seq<Line>, b: Seq<Line>, d: int)
    requires
        is_level(a, d),
        is_level(b, d),
    ensures
        is_level(a + b, d),
{
    let w = a + b;
    assert forall|i: int| 0 <= i < w.len() && (#[trigger] w[i]).depth <= d implies is_single(w[i]) by {
        if i < a.len() {
            assert(w[i] == a[i]);
        } else {
            assert(w[i] == b[i - a.len()]);
        }
    }
}

/// Blocks at the same depth one behind the other.
proof fn lemma_block_concat(a: Seq<Line>, b: Seq<Line>, d: int)
    requires
        is_block(a, d),
        is_block(b, d),
    ensures
        is_block(a + b, d),
{
    let w = a + b;
    assert(w.last() == b.last());
    assert forall|i: int| 0 <= i < w.len() implies (#[trigger] w[i]).depth >= d && good_line(w[i]) by {
        if i < a.len() {
            assert(w[i] == a[i]);
        } else {
            assert(w[i] == b[i - a.len()]);
        }
    }
    assert forall|i: int| 0 <= i < w.len() - 1 implies follows(#[trigger] w[i], w[i + 1]) by {
        if i < a.len() {
            assert(w[i] == a[i]);
            if i + 1 < a.len() {
                assert(w[i + 1] == a[i + 1]);
            } else {
                assert(w[i + 1] == b[0]);
                assert(w[i] == a.last());
            }
        } else {
            assert(w[i] == b[i - a.len()]);
            assert(w[i + 1] == b[i + 1 - a.len()]);
        }
    }
}

/// A block that is deeper behind a line behind which it can stand.
pub proof fn lemma_block_below(l: Line, b: Seq<Line>, d: int, deep: int)
    requires
        good_line(l),
        l.depth == d,
        is_block(b, deep),
        deep >= d,
        follows(l, b[0]),
    ensures
        is_block(seq![l] + b, d),
{
    let w = seq![l] + b;
    assert(w.last() == b.last());
    assert forall|i: int| 0 <= i < w.len() implies (#[trigger] w[i]).depth >= d && good_line(w[i]) by {
        if i > 0 {
            assert(w[i] == b[i - 1]);
        }
    }
    assert forall|i: int| 0 <= i < w.len() - 1 implies follows(#[trigger] w[i], w[i + 1]) by {
        if i > 0 {
            assert(w[i] == b[i - 1]);
            assert(w[i + 1] == b[i]);
        } else {
            assert(w[1] == b[0]);
        }
    }
}

/// One good line is a block.
proof fn lemma_block_line(l: Line)
    requires
        good_line(l),
        is_single(l),
    ensures
        is_block(seq![l], l.depth),
{
}

/// What begins with neither a sign of a comment nor one of a directive is not
/// silent.
proof fn lemma_not_silent(t: Text)
    requires
        t.len() > 0,
        t[0] != '#',
        t[0] != '@',
    ensures
        !is_silent(t),
{
    reveal_strlit("@@");
    reveal_strlit("@use ");
    assert("@@"@.len() == 2 && "@@"@[0] == '@');
    assert("@use "@.len() == 5 && "@use "@[0] == '@');
    if starts_with(t, "@@"@) {
        assert(t.subrange(0, 2)[0] == t[0]);
    }
    if starts_with(t, "@use "@) {
        assert(t.subrange(0, 5)[0] == t[0]);
    }
}

/// A line on which something stands behind the last colon, and which is no list
/// item, opens no level.
proof fn lemma_level_line(t: Text, depth: int)
    requires
        calm(t),
        is_line(t),
        t[0] != '#',
        t[0] != '@',
        t.last() != ':',
        !is_item(t),
        definition_kind(t) is None,
    ensures
        good_line(Line { depth, text: t }),
        levels_opened(t) == 0,
        is_single(Line { depth, text: t }),
{
    lemma_not_silent(t);
    reveal_strlit(":");
    assert(!ends_with(t, ":"@)) by {
        if ends_with(t, ":"@) {
            assert(t.subrange(t.len() - 1, t.len() as int)[0] == t.last());
        }
    }
}

/// A list item that does not end with a colon opens a level.
proof fn lemma_item_line(c: Text, depth: int)
    requires
        calm(c),
        is_line(c),
        c.last() != ':',
    ensures
        good_line(Line { depth, text: "- "@ + c }),
        levels_opened("- "@ + c) == 1,
        is_single(Line { depth, text: "- "@ + c }),
{
    let t = "- "@ + c;
    reveal_strlit("- ");
    reveal_strlit(":");
    reveal_strlit("s:");
    reveal_strlit("r:");
    reveal_strlit("sec:");
    lemma_item_text(c);
    assert(is_even("- "@));
    lemma_calm_even("- "@);
    lemma_calm_concat("- "@, c);
    assert(t[0] == '-');
    assert(t.last() == c.last());
    assert forall|j: int| 0 <= j < t.len() implies t[j] != '\n' by {
        if j >= 2 {
            assert(t[j] == c[j - 2]);
        }
    }
    assert(!is_space('-'));
    lemma_not_silent(t);
    assert(!ends_with(t, ":"@)) by {
        if ends_with(t, ":"@) {
            assert(t.subrange(t.len() - 1, t.len() as int)[0] == t.last());
        }
    }
    assert(definition_kind(t) is None) by {
        if starts_with(t, "s:"@) {
            assert(t.subrange(0, 2)[0] == t[0]);
        }
        if starts_with(t, "r:"@) {
            assert(t.subrange(0, 2)[0] == t[0]);
        }
        if starts_with(t, "sec:"@) {
            assert(t.subrange(0, 4)[0] == t[0]);
        }
    }
}

/// A line that ends with the colon behind its key opens a level.
proof fn lemma_opening_line(t: Text, depth: int)
    requires
        calm(t),
        is_line(t),
        t[0] != '#',
        t[0] != '@',
        t.last() == ':',
        key_colon(t) == Some(t.len() - 1),
        !is_item(t),
        definition_kind(t) is None,
    ensures
        good_line(Line { depth, text: t }),
        levels_opened(t) == 1,
        is_single(Line { depth, text: t }),
{
    lemma_not_silent(t);
    reveal_strlit(":");
    let n = t.len() as int;
    assert(t.subrange(n - 1, n) =~= ":"@);
    assert(t.subrange(n, n) =~= seq![]);
    assert(trim(Seq::<char>::empty()) =~= seq![]);
    assert(!has_inline_value(t));
    lemma_rfind_before(t, ':', n);
    assert(rfind(t, ':') == Some(n - 1));
    assert(!has_value_behind(t));
}

/// A list item that ends with the colon behind its key opens two levels.
proof fn lemma_double_line(c: Text, depth: int)
    requires
        calm(c),
        is_line(c),
        c.last() == ':',
        key_colon("- "@ + c) == Some(c.len() as int + 1),
    ensures
        ({
            let l = Line { depth, text: "- "@ + c };
            &&& good_line(l)
            &&& levels_opened(l.text) == 2
            &&& expected_depth(l.text, depth) == depth + 1
        }),
{
    let t = "- "@ + c;
    reveal_strlit("- ");
    reveal_strlit(":");
    reveal_strlit("s:");
    reveal_strlit("r:");
    reveal_strlit("sec:");
    lemma_item_text(c);
    assert(is_even("- "@));
    lemma_calm_even("- "@);
    lemma_calm_concat("- "@, c);
    assert(t[0] == '-');
    assert(t.last() == c.last());
    assert forall|j: int| 0 <= j < t.len() implies t[j] != '\n' by {
        if j >= 2 {
            assert(t[j] == c[j - 2]);
        }
    }
    assert(!is_space('-'));
    assert(!is_space(':'));
    lemma_not_silent(t);
    let n = t.len() as int;
    assert(t.subrange(n - 1, n) =~= ":"@);
    assert(t.subrange(n, n) =~= seq![]);
    assert(trim(Seq::<char>::empty()) =~= seq![]);
    lemma_rfind_before(t, ':', n);
    assert(rfind(t, ':') == Some(n - 1));
    assert(definition_kind(t) is None) by {
        if starts_with(t, "s:"@) {
            assert(t.subrange(0, 2)[0] == t[0]);
        }
        if starts_with(t, "r:"@) {
            assert(t.subrange(0, 2)[0] == t[0]);
        }
        if starts_with(t, "sec:"@) {
            assert(t.subrange(0, 4)[0] == t[0]);
        }
    }
}

/// The colon behind the key of a list item.
proof fn lemma_dash_colon(k: Text)
    requires
        key_reads(k),
    ensures
        key_colon("- "@ + (key_text(k) + ":"@)) == Some(key_text(k).len() as int + 2),
{
    let t = key_text(k);
    let d = "- "@;
    let post: Text = ":"@;
    let b = t + post;
    let c = d + b;
    let n = t.len() as int + 2;
    reveal_strlit("- ");
    reveal_strlit(":");
    lemma_key_text(k);
    assert(c[n] == ':');
    assert forall|j: int| 2 <= j < n implies c[j] == t[j - 2] by {
        assert(c[j] == b[j - 2]);
    }
    lemma_first_mark(c, 0);
    if is_plain_key(k) {
        assert forall|j: int| 0 <= j < n implies c[j] != ':' && c[j] != '"' && c[j] != '{' by {
            if j >= 2 {
                assert(!unsafe_in_key(t[j - 2]));
            }
        }
    } else {
        assert(c[2] == '"');
        assert(is_even(d));
        lemma_calm_even(d);
        lemma_token_place(t, post);
        assert forall|j: int| 0 <= j < n implies !(c[j] == ':' && open_to(
            #[trigger] place_at(c, j),
            ':',
        )) by {
            if j >= 2 {
                lemma_place_behind(d, b, j - 2);
                assert(b[j - 2] == c[j]);
                lemma_token_closed(t, post, ':', j - 2);
            }
        }
        lemma_place_behind(d, b, n - 2);
        lemma_open_colon_from(c, 0, n);
    }
}

/// What stands on the line of a primitive, an empty array or an empty object.
pub proof fn lemma_flat_text(v: Val)
    requires
        is_simple(v) ==> token_reads(v),
    ensures
        calm(flat_text(v)),
        is_line(flat_text(v)),
        flat_text(v).last() != ':',
        flat_text(v)[0] != '#',
        flat_text(v)[0] != '@',
{
    let p = flat_text(v);
    let none: Text = seq![];
    assert(is_even(none));
    match v {
        Val::Array(_) => {
            reveal_strlit("[]");
            lemma_shuts_even(none, ';');
            lemma_shuts_wrapped(none, true, ';');
            assert(p =~= seq!['['] + none + seq![']']);
        },
        Val::Object(_) => {
            reveal_strlit("{}");
            lemma_shuts_even(none, ';');
            lemma_shuts_wrapped(none, false, ';');
            assert(p =~= seq!['{'] + none + seq!['}']);
        },
        _ => {
            lemma_primitive_reads(arbitrary(), arbitrary(), v);
            lemma_calm_token(p);
            if no_marks(p) {
                assert(!unsafe_in_key(p[p.len() - 1]));
            } else {
                let s = choose|s: Text| p == quoted(s);
            }
        },
    }
}

/// A key and what stands behind it on a line.
proof fn lemma_pair_line(k: Text, p: Text)
    requires
        key_reads(k),
        calm(p),
        is_line(p),
    ensures
        ({
            let c = key_text(k) + ": "@ + p;
            &&& calm(c)
            &&& is_line(c)
            &&& c[0] == key_text(k)[0]
            &&& c.last() == p.last()
        }),
{
    let t = key_text(k);
    let c = t + ": "@ + p;
    lemma_key_text(k);
    reveal_strlit(": ");
    assert(is_even(": "@));
    lemma_calm_token(t);
    lemma_calm_even(": "@);
    lemma_calm_concat(t, ": "@);
    lemma_calm_concat(t + ": "@, p);
    assert forall|j: int| 0 <= j < c.len() implies c[j] != '\n' by {
        if j < t.len() {
            assert(c[j] == t[j]);
        } else if j >= t.len() + 2 {
            assert(c[j] == p[j - t.len() - 2]);
        }
    }
}

/// The start of a header.
proof fn lemma_header_start(k: Option<Text>, n: nat)
    requires
        k matches Some(name) ==> key_reads(name),
    ensures
        ({
            let t = match k {
                Some(name) => key_text(name),
                None => seq![],
            };
            let h = header_text(t, n);
            &&& calm(h)
            &&& h.len() > 0
            &&& !is_space(h[0])
            &&& h[0] != '#'
            &&& h[0] != '@'
            &&& h.last() == ']'
            &&& !h.contains('\n')
            &&& shuts(h, ':')
            &&& h.len() > t.len()
            &&& h[t.len() as int] == '['
            &&& h.len() > 1 ==> h[0] == '-' ==> h[1] != ' '
        }),
{
    let t = match k {
        Some(name) => key_text(name),
        None => seq![],
    };
    let dg = integer_text(n as int);
    lemma_digits_text(n);
    let h = header_text(t, n);
    let body = seq!['['] + dg + seq![']'];
    assert(h =~= t + body);
    assert forall|j: int| 0 <= j < dg.len() implies is_digit(#[trigger] dg[j]) by {}
    assert(no_quotes_or_braces(dg)) by {
        assert forall|j: int| 0 <= j < dg.len() implies {
            let c = #[trigger] dg[j];
            c != '"' && c != '{' && c != '}' && c != '[' && c != ']'
        } by {
            assert(is_digit(dg[j]));
        }
    }
    assert forall|j: int| 0 <= j < dg.len() implies dg[j] != ';' && dg[j] != ':' by {
        assert(is_digit(dg[j]));
    }
    assert(body == wrapped(dg, true));
    lemma_shuts_even(dg, ';');
    lemma_shuts_even(dg, ':');
    lemma_shuts_wrapped(dg, true, ';');
    lemma_shuts_wrapped(dg, true, ':');
    if let Some(name) = k {
        lemma_key_text(name);
        lemma_shuts_token(t, ';');
        lemma_shuts_token(t, ':');
    } else {
        lemma_shuts_even(t, ';');
        lemma_shuts_even(t, ':');
    }
    lemma_shuts_concat(t, body, ';');
    lemma_shuts_concat(t, body, ':');
    assert forall|j: int| 0 <= j < h.len() implies h[j] != '\n' by {
        if j < t.len() {
            assert(h[j] == t[j]);
        } else if t.len() < j < h.len() - 1 {
            assert(h[j] == dg[j - t.len() - 1]);
            assert(is_digit(dg[j - t.len() - 1]));
        }
    }
}

/// What begins with a text without colons and one more character that stands in
/// no prefix of a definition is no definition.
proof fn lemma_no_definition(t: Text, n: int)
    requires
        0 <= n <= t.len(),
        forall|j: int| 0 <= j < n ==> t[j] != ':',
        n < t.len() ==> t[n] == '[' || t[n] == ',',
    ensures
        definition_kind(t) is None,
{
    reveal_strlit("s:");
    reveal_strlit("r:");
    reveal_strlit("sec:");
    if starts_with(t, "s:"@) {
        let p = t.subrange(0, 2);
        assert(p[0] == t[0] && p[1] == t[1]);
    }
    if starts_with(t, "r:"@) {
        let p = t.subrange(0, 2);
        assert(p[0] == t[0] && p[1] == t[1]);
    }
    if starts_with(t, "sec:"@) {
        let p = t.subrange(0, 4);
        assert(p[0] == t[0] && p[1] == t[1] && p[2] == t[2] && p[3] == t[3]);
    }
}

/// A line that begins in quotes is no definition.
proof fn lemma_quote_no_definition(t: Text)
    requires
        t.len() > 0,
        t[0] == '"',
    ensures
        definition_kind(t) is None,
{
    reveal_strlit("s:");
    reveal_strlit("r:");
    reveal_strlit("sec:");
    if starts_with(t, "s:"@) {
        assert(t.subrange(0, 2)[0] == t[0]);
    }
    if starts_with(t, "r:"@) {
        assert(t.subrange(0, 2)[0] == t[0]);
    }
    if starts_with(t, "sec:"@) {
        assert(t.subrange(0, 4)[0] == t[0]);
    }
}

/// Values that are joined stand on a line.
proof fn lemma_values_line(a: Seq<Val>)
    requires
        a.len() > 0,
        forall|j: int| 0 <= j < a.len() ==> is_simple(#[trigger] a[j]) && token_reads(a[j]),
    ensures
        ({
            let x = joined(primitive_texts(a, ','), separator(','), 0);
            &&& calm(x)
            &&& is_line(x)
            &&& x[0] != '#'
            &&& x[0] != '@'
            &&& x.last() != ':'
            &&& !is_item(x)
            &&& definition_kind(x) is None
        }),
{
    let parts = primitive_texts(a, ',');
    let sep = separator(',');
    let x = joined(parts, sep, 0);
    assert forall|j: int| 0 <= j < parts.len() implies is_token(#[trigger] parts[j]) by {
        assert(is_simple(a[j]));
        lemma_primitive_reads(arbitrary(), arbitrary(), a[j]);
    }
    lemma_shuts_joined(parts, sep, 0, ';');
    lemma_joined_values(a);
    assert(is_simple(a[0]));
    lemma_primitive_reads(arbitrary(), arbitrary(), a[0]);
    let p = parts[0];
    let rest = joined(parts, sep, 1);
    assert(x =~= p + rest);
    if a.len() > 1 {
        assert(rest[0] == ',');
    }
    if p.len() > 0 && no_marks(p) {
        assert forall|j: int| 0 <= j < p.len() implies x[j] != ':' && x[j] != ' ' by {
            assert(x[j] == p[j]);
            assert(!unsafe_in_key(p[j]));
        }
        lemma_no_definition(x, p.len() as int);
    } else {
        let s = choose|s: Text| p == quoted(s);
        assert(x[0] == '"');
        lemma_quote_no_definition(x);
    }
    reveal_strlit("- ");
    if is_item(x) {
        assert(x.subrange(0, 2)[0] == x[0]);
        assert(x.subrange(0, 2)[1] == x[1]);
        if p.len() == 1 {
            assert(x[1] == rest[0]);
        }
    }
    lemma_joined_last(a, 0);
}

/// Values that are joined end as the last of them ends.
proof fn lemma_joined_last(a: Seq<Val>, i: int)
    requires
        0 <= i < a.len(),
        forall|j: int| 0 <= j < a.len() ==> is_simple(#[trigger] a[j]) && token_reads(a[j]),
    ensures
        joined(primitive_texts(a, ','), separator(','), i).len() > 0,
        joined(primitive_texts(a, ','), separator(','), i).last() != ':',
    decreases a.len() - i,
{
    let parts = primitive_texts(a, ',');
    let x = joined(parts, separator(','), i);
    assert(is_simple(a[i]));
    lemma_flat_text(a[i]);
    if i + 1 < a.len() {
        lemma_joined_last(a, i + 1);
        assert(x.last() == joined(parts, separator(','), i + 1).last());
    } else {
        assert(x.last() == parts[i].last());
    }
}

/// The header of an array whose values stand behind it opens no level.
proof fn lemma_inline_head(k: Option<Text>, a: Seq<Val>, depth: int)
    requires
        k matches Some(name) ==> key_reads(name),
        a.len() > 0,
        all_listed(a),
    ensures
        ({
            let t = match k {
                Some(name) => key_text(name),
                None => seq![],
            };
            let c = inline_array_text(t, a, ',');
            &&& good_line(Line { depth, text: c })
            &&& is_single(Line { depth, text: c })
            &&& calm(c)
            &&& is_line(c)
            &&& c.last() != ':'
        }),
{
    let t = match k {
        Some(name) => key_text(name),
        None => seq![],
    };
    let h = header_text(t, a.len());
    let x = joined(primitive_texts(a, ','), separator(','), 0);
    let mid: Text = seq![':', ' '];
    let c = h + mid + x;
    assert forall|j: int| 0 <= j < a.len() implies is_simple(#[trigger] a[j]) && token_reads(a[j]) by {}
    lemma_header_start(k, a.len());
    lemma_values_line(a);
    assert(is_even(mid));
    lemma_calm_even(mid);
    lemma_calm_concat(h, mid);
    lemma_calm_concat(h + mid, x);
    assert(c[0] == h[0]);
    assert(c.last() == x.last());
    assert forall|j: int| 0 <= j < c.len() implies c[j] != '\n' by {
        if j < h.len() {
            assert(c[j] == h[j]);
        } else if j >= h.len() + 2 {
            assert(c[j] == x[j - h.len() - 2]);
        }
    }
    lemma_head_start(k, a.len(), mid + x);
    assert(c =~= h + (mid + x));
    lemma_level_line(c, depth);
}

/// A line that begins as a header is neither a list item nor a definition.
proof fn lemma_head_start(k: Option<Text>, n: nat, tail: Text)
    requires
        k matches Some(name) ==> key_reads(name),
    ensures
        ({
            let t = match k {
                Some(name) => key_text(name),
                None => seq![],
            };
            let c = header_text(t, n) + tail;
            !is_item(c) && definition_kind(c) is None
        }),
{
    let t = match k {
        Some(name) => key_text(name),
        None => seq![],
    };
    let h = header_text(t, n);
    let c = h + tail;
    lemma_header_start(k, n);
    assert(c[t.len() as int] == h[t.len() as int]);
    assert(c[0] == h[0]);
    if t.len() > 0 && !is_plain_key(k->0) {
        lemma_quote_no_definition(c);
    } else {
        assert forall|j: int| 0 <= j < t.len() implies c[j] != ':' by {
            assert(c[j] == t[j]);
            assert(!unsafe_in_key(t[j]));
        }
        lemma_no_definition(c, t.len() as int);
    }
    reveal_strlit("- ");
    if is_item(c) {
        assert(c.subrange(0, 2)[0] == c[0]);
        assert(c.subrange(0, 2)[1] == c[1]);
        assert(c[0] == h[0]);
        assert(h.len() > 1);
        assert(c[1] == h[1]);
    }
}

/// A reader that has met no quote is outside of quotes.
proof fn lemma_place_unquoted(s: Text, n: int)
    requires
        0 <= n <= s.len(),
        forall|j: int| 0 <= j < n ==> s[j] != '"',
    ensures
        !place_at(s, n).skip,
        !place_at(s, n).quoted,
    decreases n,
{
    if n > 0 {
        lemma_place_unquoted(s, n - 1);
    }
}

/// A line without colons outside of quotes but for the one at its end ends with
/// the colon behind its key.
proof fn lemma_only_colon(head: Text)
    requires
        shuts(head, ':'),
    ensures
        key_colon(head + seq![':']) == Some(head.len() as int),
{
    let c = head + seq![':'];
    let n = head.len() as int;
    assert(c[n] == ':');
    lemma_first_mark(c, 0);
    lemma_place_same(c, head, n);
    assert forall|j: int| 0 <= j < n implies !(c[j] == ':' && open_to(
        #[trigger] place_at(c, j),
        ':',
    )) by {
        lemma_place_same(c, head, j);
        assert(c[j] == head[j]);
        assert(head[j] == ':' ==> place_at(head, j).skip || place_at(head, j).quoted);
    }
    let m = first_mark(c, 0)->0;
    if c[m] == ':' && m < n {
        lemma_place_unquoted(c, m);
        assert(open_to(place_at(c, m), ':'));
    }
    lemma_open_colon_from(c, 0, n);
}

/// The header of an array whose items stand below it opens a level.
proof fn lemma_open_head(e: Style, k: Option<Text>, a: Seq<Val>, depth: int)
    requires
        k matches Some(name) ==> key_reads(name),
        a.len() > 0,
        array_reads(e, a),
        !all_simple(a),
    ensures
        ({
            let t = match k {
                Some(name) => key_text(name),
                None => seq![],
            };
            let c = head_text(t, a);
            let l = Line { depth, text: c };
            let d = Line { depth, text: "- "@ + c };
            &&& good_line(l)
            &&& levels_opened(c) == 1
            &&& is_single(l)
            &&& good_line(d)
            &&& levels_opened(d.text) == 2
            &&& expected_depth(d.text, depth) == depth + 1
        }),
{
    let t = match k {
        Some(name) => key_text(name),
        None => seq![],
    };
    let h = header_text(t, a.len());
    let c = head_text(t, a);
    lemma_header_start(k, a.len());
    reveal_strlit(":");
    reveal_strlit("}:");
    let none: Text = seq![];
    let mid: Text = match table_fields(a) {
        Some(f) => seq!['{'] + joined(field_texts(f), seq![','], 0) + seq!['}'],
        None => none,
    };
    let head = h + mid;
    match table_fields(a) {
        Some(f) => {
            let x = joined(field_texts(f), seq![','], 0);
            lemma_fields_calm(f);
            assert(mid == wrapped(x, false));
            lemma_shuts_wrapped(x, false, ';');
            lemma_shuts_wrapped(x, false, ':');
            assert(c =~= head + seq![':']);
        },
        None => {
            lemma_shuts_even(none, ';');
            lemma_shuts_even(none, ':');
            assert(c =~= head + seq![':']);
        },
    }
    lemma_shuts_concat(h, mid, ';');
    lemma_shuts_concat(h, mid, ':');
    let colon: Text = seq![':'];
    assert(is_even(colon));
    lemma_calm_even(colon);
    lemma_calm_concat(head, colon);
    assert forall|j: int| 0 <= j < head.len() implies head[j] != '\n' by {
        if j < h.len() {
            assert(head[j] == h[j]);
        } else {
            assert(head[j] == mid[j - h.len()]);
            if table_fields(a) is Some {
                let x = joined(field_texts(table_fields(a)->0), seq![','], 0);
                if 0 < j - h.len() < mid.len() - 1 {
                    assert(mid[j - h.len()] == x[j - h.len() - 1]);
                }
            }
        }
    }
    lemma_only_colon(head);
    lemma_head_start(k, a.len(), mid + colon);
    assert(c =~= h + (mid + colon));
    assert(c[0] == h[0]);
    assert(c.last() == ':');
    lemma_opening_line(c, depth);
    let dash = "- "@;
    reveal_strlit("- ");
    assert(is_even(dash));
    lemma_calm_even(dash);
    lemma_shuts_even(dash, ':');
    lemma_shuts_concat(dash, head, ':');
    lemma_only_colon(dash + head);
    assert(dash + head + seq![':'] =~= dash + c);
    lemma_double_line(c, depth);
}

/// The fields of a table hold no colon and no semicolon outside of quotes, and
/// stand on one line.
proof fn lemma_fields_calm(f: Seq<Text>)
    requires
        forall|k: int| 0 <= k < f.len() ==> key_reads(#[trigger] f[k]),
    ensures
        ({
            let x = joined(field_texts(f), seq![','], 0);
            shuts(x, ';') && shuts(x, ':') && !x.contains('\n')
        }),
{
    let parts = field_texts(f);
    let sep: Text = seq![','];
    assert forall|j: int| 0 <= j < parts.len() implies is_token(#[trigger] parts[j])
        && !parts[j].contains('\n') by {
        assert(key_reads(f[j]));
        lemma_key_text(f[j]);
    }
    lemma_shuts_joined(parts, sep, 0, ';');
    lemma_shuts_joined(parts, sep, 0, ':');
    lemma_joined_holds(parts, sep, 0, '\n');
}

/// The rows of a table are a block.
proof fn lemma_rows_block(a: Seq<Val>, f: Seq<Text>, depth: int)
    requires
        table_fields(a) == Some(f),
        table_reads(a, f),
    ensures
        is_block(row_lines(a, f, ',', depth, 0), depth),
{
    let w = row_lines(a, f, ',', depth, 0);
    lemma_row_lines(a, f, depth, 0);
    assert forall|i: int| 0 <= i < w.len() implies (#[trigger] w[i]).depth >= depth && good_line(w[i])
        && w[i].depth == depth && is_single(w[i]) && levels_opened(w[i].text) == 0 by {
        lemma_row_values(a, f, i);
        let vals = row_values(a[i], f);
        lemma_values_line(vals);
        lemma_level_line(joined(primitive_texts(vals, ','), separator(','), 0), depth);
    }
}

/// The lines for an array that is not empty are a block.
proof fn lemma_array_block(e: Style, k: Option<Text>, a: Seq<Val>, depth: int)
    requires
        usable(e),
        k matches Some(name) ==> key_reads(name),
        a.len() > 0,
        array_reads(e, a),
    ensures
        ({
            let t = match k {
                Some(name) => key_text(name),
                None => seq![],
            };
            let w = seq![Line { depth, text: head_text(t, a) }] + body_lines(e, a, depth + 1);
            is_block(w, depth) && is_level(w, depth)
        }),
    decreases a, a.len() + 1,
{
    let t = match k {
        Some(name) => key_text(name),
        None => seq![],
    };
    let l = Line { depth, text: head_text(t, a) };
    if all_simple(a) {
        lemma_inline_head(k, a, depth);
        lemma_block_line(l);
        assert(seq![l] + body_lines(e, a, depth + 1) =~= seq![l]);
    } else {
        lemma_open_head(e, k, a, depth);
        match table_fields(a) {
            Some(f) => {
                lemma_rows_block(a, f, depth + 1);
            },
            None => {
                lemma_items_block(e, a, depth + 1, 0);
            },
        }
        lemma_block_below(l, body_lines(e, a, depth + 1), depth, depth + 1);
    }
    assert(is_level(seq![l], depth));
    lemma_level_concat(seq![l], body_lines(e, a, depth + 1), depth);
}

/// The lines for an array that is not empty behind a dash are a block.
proof fn lemma_dash_array_block(e: Style, k: Option<Text>, a: Seq<Val>, depth: int)
    requires
        usable(e),
        k matches Some(name) ==> key_reads(name),
        a.len() > 0,
        array_reads(e, a),
    ensures
        ({
            let t = match k {
                Some(name) => key_text(name),
                None => seq![],
            };
            let l = Line { depth, text: "- "@ + head_text(t, a) };
            &&& is_block(seq![l] + body_lines(e, a, depth + 2), depth)
            &&& all_simple(a) ==> levels_opened(l.text) == 1
        }),
    decreases a, a.len() + 1,
{
    let t = match k {
        Some(name) => key_text(name),
        None => seq![],
    };
    let l = Line { depth, text: "- "@ + head_text(t, a) };
    let body = body_lines(e, a, depth + 2);
    if all_simple(a) {
        lemma_inline_head(k, a, depth);
        lemma_item_line(head_text(t, a), depth);
        lemma_block_line(l);
        assert(seq![l] + body =~= seq![l]);
    } else {
        lemma_open_head(e, k, a, depth);
        match table_fields(a) {
            Some(f) => {
                lemma_rows_block(a, f, depth + 2);
            },
            None => {
                lemma_items_block(e, a, depth + 2, 0);
            },
        }
        lemma_block_below(l, body, depth, depth + 2);
    }
}

/// The lines for an entry are a block.
proof fn lemma_entry_block(e: Style, k: Text, v: Val, depth: int, refs: bool)
    requires
        usable(e),
        entry_reads(e, k, v, refs),
    ensures
        is_block(written_entry(e, k, v, depth, refs), depth),
        is_level(written_entry(e, k, v, depth, refs), depth),
    decreases v, 0int,
{
    let w = written_entry(e, k, v, depth, refs);
    let t = key_text(k);
    lemma_entry_first(e, k, v, depth, refs);
    lemma_key_text(k);
    reveal_strlit(": ");
    if v is Array && v->Array_0.len() > 0 {
        let a = v->Array_0;
        assert(decreases_to!(v => a));
        lemma_array_parts(e, t, true, a, depth, depth + 1);
        lemma_array_block(e, Some(k), a, depth);
    } else if referred(e, v, refs) is Some {
        let name = referred(e, v, refs)->0;
        let p = reference_text(name);
        let c = t + ": "@ + p;
        lemma_reference_line(e, k, v, depth);
        lemma_reference_text(name);
        lemma_pair_line(k, p);
        let l = Line { depth, text: c };
        assert(w[0] == l);
        assert(c =~= t + (": "@ + p));
        lemma_free_line(k, ": "@ + p);
        lemma_level_line(c, depth);
        lemma_block_line(l);
    } else if v is Object && v->Object_0.len() > 0 {
        let o = v->Object_0;
        assert(decreases_to!(v => o));
        let l = Line { depth, text: t + ":"@ };
        assert(w == seq![l] + written_entries(e, o, depth + 1, 0));
        lemma_object_line(k, depth);
        lemma_entries_block(e, o, depth + 1, 0);
        lemma_block_below(l, written_entries(e, o, depth + 1, 0), depth, depth + 1);
        assert(is_level(seq![l], depth));
        lemma_level_concat(seq![l], written_entries(e, o, depth + 1, 0), depth);
    } else {
        let p = flat_text(v);
        let c = t + ": "@ + p;
        lemma_flat_text(v);
        lemma_pair_line(k, p);
        lemma_first_text(e, k, v, depth);
        let l = Line { depth, text: c };
        assert(w =~= seq![l]);
        assert(w[0] == l);
        assert(c =~= t + (": "@ + p));
        lemma_free_line(k, ": "@ + p);
        lemma_level_line(c, depth);
        lemma_block_line(l);
    }
}

/// The line for an object with entries opens a level.
pub proof fn lemma_object_line(k: Text, depth: int)
    requires
        key_reads(k),
        is_free_key(k),
    ensures
        good_line(Line { depth, text: key_text(k) + ":"@ }),
        levels_opened(key_text(k) + ":"@) == 1,
        is_single(Line { depth, text: key_text(k) + ":"@ }),
{
    let t = key_text(k);
    let c = t + ":"@;
    reveal_strlit(":");
    reveal_strlit("- ");
    lemma_key_text(k);
    let colon: Text = seq![':'];
    assert(":"@ =~= colon);
    assert(is_even(colon));
    lemma_calm_even(colon);
    lemma_calm_token(t);
    lemma_calm_concat(t, colon);
    assert(c =~= t + colon + seq![]);
    lemma_key_line(k, seq![]);
    lemma_free_line(k, ":"@);
    assert forall|j: int| 0 <= j < c.len() implies c[j] != '\n' by {
        if j < t.len() {
            assert(c[j] == t[j]);
        }
    }
    if is_item(c) {
        assert(c.subrange(0, 2)[0] == c[0]);
        assert(c.subrange(0, 2)[1] == c[1]);
        if t.len() > 1 {
            assert(c[1] == t[1]);
        }
    }
    assert(c[0] == t[0]);
    assert(!is_space(':'));
    lemma_opening_line(c, depth);
}

/// The lines for the entries from the `j`-th on are a block.
proof fn lemma_entries_block(e: Style, o: Entries, depth: int, j: int)
    requires
        usable(e),
        0 <= j < o.len(),
        entries_read(e, o, j, true),
    ensures
        is_block(written_entries(e, o, depth, j), depth),
        is_level(written_entries(e, o, depth, j), depth),
    decreases o, o.len() - j,
{
    let w = written_entry(e, o[j].0, o[j].1, depth, true);
    let rest = written_entries(e, o, depth, j + 1);
    lemma_entry_smaller(o, j);
    assert(entry_reads(e, o[j].0, o[j].1, true));
    lemma_entry_block(e, o[j].0, o[j].1, depth, true);
    assert(written_entries(e, o, depth, j) == w + rest);
    if j + 1 < o.len() {
        lemma_entries_block(e, o, depth, j + 1);
        lemma_block_concat(w, rest, depth);
        lemma_level_concat(w, rest, depth);
    } else {
        assert(rest =~= seq![]);
        assert(w + rest =~= w);
    }
}

/// The lines for the other entries of a list item are a block.
proof fn lemma_rest_block(e: Style, o: Entries, depth: int, j: int)
    requires
        usable(e),
        0 <= j < o.len(),
        entries_read(e, o, j, false),
    ensures
        is_block(written_rest(e, o, depth, j), depth),
    decreases o, o.len() - j,
{
    let w = written_entry(e, o[j].0, o[j].1, depth, false);
    let rest = written_rest(e, o, depth, j + 1);
    lemma_entry_smaller(o, j);
    assert(entry_reads(e, o[j].0, o[j].1, false));
    lemma_entry_block(e, o[j].0, o[j].1, depth, false);
    assert(written_rest(e, o, depth, j) == w + rest);
    if j + 1 < o.len() {
        lemma_rest_block(e, o, depth, j + 1);
        lemma_block_concat(w, rest, depth);
    } else {
        assert(rest =~= seq![]);
        assert(w + rest =~= w);
    }
}

/// The lines for the items from the `j`-th on are a block.
pub proof fn lemma_items_block(e: Style, a: Seq<Val>, depth: int, j: int)
    requires
        usable(e),
        0 <= j < a.len(),
        items_read(e, a, j),
    ensures
        is_block(written_items(e, a, depth, j), depth),
    decreases a, a.len() - j,
{
    let w = written_item(e, a[j], depth);
    let rest = written_items(e, a, depth, j + 1);
    lemma_item_smaller(a, j);
    assert(item_reads(e, a[j]));
    lemma_item_block(e, a[j], depth);
    assert(written_items(e, a, depth, j) == w + rest);
    if j + 1 < a.len() {
        lemma_items_block(e, a, depth, j + 1);
        lemma_block_concat(w, rest, depth);
    } else {
        assert(rest =~= seq![]);
        assert(w + rest =~= w);
    }
}

/// The lines for a list item are a block.
proof fn lemma_item_block(e: Style, v: Val, depth: int)
    requires
        usable(e),
        item_reads(e, v),
    ensures
        is_block(written_item(e, v, depth), depth),
    decreases v, 0int,
{
    let w = written_item(e, v, depth);
    reveal_strlit("- {}");
    reveal_strlit("- []");
    reveal_strlit("- ");
    reveal_strlit("[]");
    reveal_strlit("{}");
    if v is Object && v->Object_0.len() > 0 && matching_schema(e.schemas, v, 0) is Some {
        let name = matching_schema(e.schemas, v, 0)->0;
        lemma_dash_reference(name);
        lemma_reference_text(name);
        lemma_item_line(reference_text(name), depth);
        let l = Line { depth, text: "- "@ + reference_text(name) };
        assert(w =~= seq![l]);
        lemma_block_line(l);
    } else if v is Object && v->Object_0.len() > 0 {
        let o = v->Object_0;
        assert(decreases_to!(v => o));
        let first = written_first(e, o[0].0, o[0].1, depth);
        let rest = written_rest(e, o, depth + 1, 1);
        assert(w == written_object_item(e, o, depth));
        assert(w == first + rest);
        lemma_entry_smaller(o, 0);
        lemma_first_block(e, o[0].0, o[0].1, depth);
        if o.len() > 1 {
            lemma_rest_block(e, o, depth + 1, 1);
            lemma_block_rest(first, rest, depth);
        } else {
            assert(rest =~= seq![]);
            assert(w =~= first);
        }
    } else if v is Array && v->Array_0.len() > 0 {
        let a = v->Array_0;
        assert(decreases_to!(v => a));
        let none: Text = seq![];
        lemma_dash_head(none, a);
        lemma_array_parts(e, "- "@, true, a, depth, depth + 2);
        lemma_dash_array_block(e, None, a, depth);
    } else {
        let p = flat_text(v);
        lemma_flat_text(v);
        lemma_item_line(p, depth);
        let l = Line { depth, text: "- "@ + p };
        assert(w[0].text =~= "- "@ + p);
        assert(w[0] == l);
        assert(w =~= seq![l]);
        lemma_block_line(l);
    }
}

/// The lines for the first entry of a list item are a block, behind which lines
/// one level deeper can stand.
proof fn lemma_first_block(e: Style, k: Text, v: Val, depth: int)
    requires
        usable(e),
        first_reads(e, k, v),
    ensures
        ({
            let w = written_first(e, k, v, depth);
            &&& is_block(w, depth)
            &&& opens_below(w, depth)
        }),
    decreases v, 0int,
{
    let w = written_first(e, k, v, depth);
    if v is Array && v->Array_0.len() > 0 {
        let a = v->Array_0;
        assert(decreases_to!(v => a));
        lemma_first_array(e, k, a, depth);
        lemma_dash_array_block(e, Some(k), a, depth);
        let l = Line { depth, text: "- "@ + head_text(key_text(k), a) };
        let body = body_lines(e, a, depth + 2);
        if all_simple(a) {
            assert(w =~= seq![l]);
        } else {
            lemma_body_first(e, a, depth + 2);
            assert(w.last() == body.last());
            match table_fields(a) {
                Some(f) => {
                    lemma_rows_block(a, f, depth + 2);
                },
                None => {
                    lemma_items_block(e, a, depth + 2, 0);
                },
            }
            assert(body[body.len() - 1].depth >= depth + 2);
        }
    } else if v is Object && v->Object_0.len() > 0 {
        let o = v->Object_0;
        assert(decreases_to!(v => o));
        lemma_first_object(e, k, o, depth);
        lemma_first_object_line(k, depth);
        let l = Line { depth, text: "- "@ + (key_text(k) + ":"@) };
        let body = written_entries(e, o, depth + 2, 0);
        lemma_entries_block(e, o, depth + 2, 0);
        lemma_block_below(l, body, depth, depth + 2);
        assert(w.last() == body.last());
        assert(body[body.len() - 1].depth >= depth + 2);
    } else {
        let p = flat_text(v);
        let c = key_text(k) + ": "@ + p;
        lemma_first_text(e, k, v, depth);
        lemma_flat_text(v);
        lemma_pair_line(k, p);
        lemma_item_line(c, depth);
        lemma_block_line(w[0]);
        assert(w.last() == w[0]);
    }
}

/// Whether lines one level below `depth` can stand behind `w`.
pub open spec fn opens_below(w: Seq<Line>, depth: int) -> bool {
    w.last().depth + levels_opened(w.last().text) >= depth + 1
}

/// A block one level deeper behind a block that opens that level.
proof fn lemma_block_rest(a: Seq<Line>, b: Seq<Line>, d: int)
    requires
        is_block(a, d),
        opens_below(a, d),
        is_block(b, d + 1),
    ensures
        is_block(a + b, d),
{
    let w = a + b;
    assert(w.last() == b.last());
    assert forall|i: int| 0 <= i < w.len() implies (#[trigger] w[i]).depth >= d && good_line(w[i]) by {
        if i < a.len() {
            assert(w[i] == a[i]);
        } else {
            assert(w[i] == b[i - a.len()]);
        }
    }
    assert forall|i: int| 0 <= i < w.len() - 1 implies follows(#[trigger] w[i], w[i + 1]) by {
        if i < a.len() {
            assert(w[i] == a[i]);
            if i + 1 < a.len() {
                assert(w[i + 1] == a[i + 1]);
            } else {
                assert(w[i + 1] == b[0]);
                assert(w[i] == a.last());
            }
        } else {
            assert(w[i] == b[i - a.len()]);
            assert(w[i + 1] == b[i + 1 - a.len()]);
        }
    }
}

/// The line for the first key of a list item with entries below it.
proof fn lemma_first_object_line(k: Text, depth: int)
    requires
        key_reads(k),
    ensures
        ({
            let l = Line { depth, text: "- "@ + (key_text(k) + ":"@) };
            &&& good_line(l)
            &&& levels_opened(l.text) == 2
            &&& expected_depth(l.text, depth) == depth + 1
        }),
{
    let t = key_text(k);
    let c = t + ":"@;
    reveal_strlit(":");
    lemma_key_text(k);
    let colon: Text = seq![':'];
    assert(":"@ =~= colon);
    assert(is_even(colon));
    lemma_calm_even(colon);
    lemma_calm_token(t);
    lemma_calm_concat(t, colon);
    assert forall|j: int| 0 <= j < c.len() implies c[j] != '\n' by {
        if j < t.len() {
            assert(c[j] == t[j]);
        }
    }
    assert(c[0] == t[0]);
    assert(!is_space(':'));
    lemma_dash_colon(k);
    lemma_double_line(c, depth);
}

// ---------------------------------------------------------------------------
// What is read back equals what was written

/// A primitive that reads back equals itself.
proof fn lemma_simple_eq(v: Val)
    requires
        is_simple(v),
        token_reads(v),
    ensures
        val_eq(v, v),
{
    if let Val::Float(t) = v {
        reveal_strlit("NaN");
        lemma_decimal_plain(t);
        assert(t[0] != 'N');
    }
}

/// Primitives that read back equal themselves.
proof fn lemma_items_eq_simple(a: Seq<Val>, i: int)
    requires
        all_listed(a),
        0 <= i <= a.len(),
    ensures
        items_eq(a, a, i),
    decreases a.len() - i,
{
    if i < a.len() {
        assert(is_simple(a[i]) && token_reads(a[i]));
        lemma_simple_eq(a[i]);
        lemma_items_eq_simple(a, i + 1);
    }
}

/// An array of primitives is read back as it is, and equals itself.
proof fn lemma_listed_eq(e: Style, a: Seq<Val>)
    requires
        all_listed(a),
    ensures
        read_back(e, Val::Array(a)) == Val::Array(a),
        val_eq(Val::Array(a), Val::Array(a)),
{
    if a.len() > 0 {
        assert(is_simple(a[0]));
    }
    assert(table_fields(a) is None);
    lemma_simple_items(e, a, 0);
    assert(a.subrange(0, a.len() as int) =~= a);
    lemma_items_eq_simple(a, 0);
}

/// The entries of a row equal those that were written.
proof fn lemma_row_eq(a: Seq<Val>, f: Seq<Text>, i: int, k: int)
    requires
        table_fields(a) == Some(f),
        table_reads(a, f),
        0 <= i < a.len(),
        0 <= k <= f.len(),
    ensures
        entries_in(in_field_order(a[i], f), a[i]->Object_0, k),
    decreases f.len() - k,
{
    if k < f.len() {
        lemma_row_eq(a, f, i, k + 1);
        lemma_table_row(a, f, i, k);
        assert(token_reads(entry(a[i]->Object_0, f[k])->0));
        lemma_simple_eq(entry(a[i]->Object_0, f[k])->0);
    }
}

/// The rows of a table equal those that were written.
proof fn lemma_rows_eq(a: Seq<Val>, f: Seq<Text>, i: int)
    requires
        table_fields(a) == Some(f),
        table_reads(a, f),
        0 <= i <= a.len(),
    ensures
        items_eq(table_rows(a, f), a, i),
    decreases a.len() - i,
{
    if i < a.len() {
        lemma_rows_eq(a, f, i + 1);
        lemma_row_eq(a, f, i, 0);
        lemma_table_row(a, f, i, 0);
        if i > 0 {
            assert(is_row(a[i], keys(a[0]->Object_0)));
        }
        let o = a[i]->Object_0;
        assert(o.len() == f.len());
        assert(a[i] == Val::Object(o));
        assert(table_rows(a, f)[i] == Val::Object(in_field_order(a[i], f)));
        assert(val_eq(table_rows(a, f)[i], a[i]));
    }
}

/// An entry equals what was written.
proof fn lemma_entry_eq(e: Style, k: Text, v: Val, refs: bool)
    requires
        well_defined(e),
        entry_reads(e, k, v, refs),
        well_keyed(v),
    ensures
        val_eq(read_entry(e, v, refs), v),
    decreases v, 0int,
{
    match v {
        Val::Array(a) => {
            if a.len() == 0 {
                lemma_listed_eq(e, a);
            } else {
                assert(decreases_to!(v => a));
                lemma_array_eq(e, a);
            }
        },
        Val::Object(o) => {
            assert(decreases_to!(v => o));
            lemma_read_entries(e, o, 0, true);
            if referred(e, v, refs) is Some {
                lemma_matching(e.schemas, v, 0);
                let d = entry(e.schemas, referred(e, v, refs)->0)->0;
                equality_goes_both_ways(v, d);
            } else if o.len() > 0 {
                lemma_entries_eq(e, o, 0, true);
            }
        },
        _ => {
            lemma_simple_eq(v);
        },
    }
}

/// The entries from the `j`-th on equal those that were written.
proof fn lemma_entries_eq(e: Style, o: Entries, j: int, refs: bool)
    requires
        well_defined(e),
        0 <= j <= o.len(),
        distinct(o),
        entries_read(e, o, j, refs),
        entries_well_keyed(o, j),
    ensures
        entries_in(read_entries(e, o, 0, refs), o, j),
    decreases o, o.len() - j,
{
    lemma_read_entries(e, o, 0, refs);
    if j < o.len() {
        lemma_entry_smaller(o, j);
        assert(entry_reads(e, o[j].0, o[j].1, refs));
        assert(well_keyed(o[j].1));
        lemma_entry_eq(e, o[j].0, o[j].1, refs);
        lemma_entry_found(o, j);
        lemma_entries_eq(e, o, j + 1, refs);
    }
}

/// An array that is not empty equals what was written.
proof fn lemma_array_eq(e: Style, a: Seq<Val>)
    requires
        well_defined(e),
        a.len() > 0,
        array_reads(e, a),
        items_well_keyed(a, 0),
    ensures
        val_eq(read_back(e, Val::Array(a)), Val::Array(a)),
    decreases a, a.len() + 1,
{
    if all_simple(a) {
        lemma_listed_eq(e, a);
    } else {
        match table_fields(a) {
            Some(f) => {
                lemma_rows_eq(a, f, 0);
            },
            None => {
                lemma_read_items(e, a, 0);
                lemma_items_eq(e, a, 0);
            },
        }
    }
}

/// The items from the `j`-th on equal those that were written.
proof fn lemma_items_eq(e: Style, a: Seq<Val>, j: int)
    requires
        well_defined(e),
        0 <= j <= a.len(),
        items_read(e, a, j),
        items_well_keyed(a, j),
    ensures
        items_eq(read_items(e, a, 0), a, j),
    decreases a, a.len() - j,
{
    lemma_read_items(e, a, 0);
    if j < a.len() {
        lemma_item_smaller(a, j);
        assert(item_reads(e, a[j]));
        assert(well_keyed(a[j]));
        lemma_item_eq(e, a[j]);
        lemma_items_eq(e, a, j + 1);
    }
}

/// A list item equals what was written.
proof fn lemma_item_eq(e: Style, v: Val)
    requires
        well_defined(e),
        item_reads(e, v),
        well_keyed(v),
    ensures
        val_eq(read_item(e, v), v),
    decreases v, 0int,
{
    match v {
        Val::Object(o) => {
            assert(decreases_to!(v => o));
            lemma_read_entries(e, o, 0, false);
            if referred(e, v, true) is Some {
                lemma_matching(e.schemas, v, 0);
                let d = entry(e.schemas, referred(e, v, true)->0)->0;
                equality_goes_both_ways(v, d);
            } else if o.len() > 0 {
                lemma_entries_eq(e, o, 1, false);
                lemma_entry_smaller(o, 0);
                assert(well_keyed(o[0].1));
                lemma_first_eq(e, o[0].0, o[0].1);
                lemma_entry_found(o, 0);
            }
        },
        Val::Array(a) => {
            assert(decreases_to!(v => a));
            if a.len() == 0 {
                lemma_listed_eq(e, a);
            } else {
                lemma_array_eq(e, a);
            }
        },
        _ => {
            lemma_simple_eq(v);
        },
    }
}

/// The first entry of a list item equals what was written.
proof fn lemma_first_eq(e: Style, k: Text, v: Val)
    requires
        well_defined(e),
        first_reads(e, k, v),
        well_keyed(v),
    ensures
        val_eq(read_entry(e, v, false), v),
    decreases v, 0int,
{
    match v {
        Val::Array(a) => {
            assert(decreases_to!(v => a));
            if a.len() == 0 {
                lemma_listed_eq(e, a);
            } else {
                lemma_array_eq(e, a);
            }
        },
        Val::Object(o) => {
            assert(decreases_to!(v => o));
            lemma_read_entries(e, o, 0, true);
            if o.len() > 0 {
                lemma_entries_eq(e, o, 0, true);
            }
        },
        _ => {
            lemma_simple_eq(v);
        },
    }
}

// ---------------------------------------------------------------------------
// Documents

/// The lines for an object with entries read back.
proof fn lemma_object_document(e: Style, s: Stores, open: Seq<Text>, o: Entries)
    requires
        resolves(e, s, open, written_entries(e, o, 0, 0)),
        usable(e),
        o.len() > 0,
        reads_back(e, Val::Object(o)),
        well_keyed(Val::Object(o)),
    ensures
        document(s, open, written_entries(e, o, 0, 0)) == good(
            Val::Object(read_entries(e, o, 0, true)),
            open,
        ),
{
    let ls = written_entries(e, o, 0, 0);
    lemma_read_entries(e, o, 0, true);
    assert(ls.subrange(0, ls.len() as int) =~= ls);
    assert(entry_reads(e, o[0].0, o[0].1, true));
    lemma_first_entry(e, o[0].0, o[0].1);
    let first = written_entry(e, o[0].0, o[0].1, 0, true);
    assert(ls == first + written_entries(e, o, 0, 1));
    lemma_entry_first(e, o[0].0, o[0].1, 0, true);
    assert(ls[0] == first[0]);
    assert(read_entries(e, o, 0, true).subrange(0, 0) =~= seq![]);
    lemma_object_reads(e, s, open, ls, 0, o, 0, 0, seq![]);
    let t = ls[0].text;
    assert(has_colon(t));
    lemma_empty_no_colon();
}

/// The lines for an array with items read back.
proof fn lemma_array_document(e: Style, s: Stores, open: Seq<Text>, a: Seq<Val>)
    requires
        resolves(e, s, open, written_array(e, seq![], false, a, 0, 1)),
        usable(e),
        a.len() > 0,
        reads_back(e, Val::Array(a)),
        well_keyed(Val::Array(a)),
    ensures
        document(s, open, written_array(e, seq![], false, a, 0, 1)) == good(
            read_back(e, Val::Array(a)),
            open,
        ),
{
    let none: Text = seq![];
    let ls = written_array(e, none, false, a, 0, 1);
    let line = seq![Line { depth: 0, text: head_text(none, a) }];
    let body = body_lines(e, a, 1);
    lemma_array_parts(e, none, false, a, 0, 1);
    assert(ls == line + body);
    assert(ls.subrange(0, ls.len() as int) =~= ls);
    lemma_head(e, None, a);
    let h = array_header(head_text(none, a))->0;
    lemma_placed(ls, 0, line, body);
    assert(ls[0] == line[0]);
    assert(1 + body.len() == ls.len());
    lemma_array_reads(e, s, open, ls, 0, 0, a, h);
    lemma_not_braces(ls[0].text);
    lemma_keyless(s, open, ls, h, read_back(e, Val::Array(a)), ls.len() as int);
}

/// A header is no empty object.
pub proof fn lemma_not_braces(t: Text)
    requires
        array_header(t) is Some,
    ensures
        t != "{}"@,
{
    lemma_empty_no_colon();
}

/// A document that begins with a header without a key is the array that it
/// announces.
proof fn lemma_keyless(s: Stores, open: Seq<Text>, ls: Seq<Line>, h: Header, v: Val, n: int)
    requires
        ls.len() > 0,
        ls[0].text != "{}"@,
        array_header(ls[0].text) == Some(h),
        h.key is None,
        array_lines(s, open, ls, 0, ls[0].depth, h) == good((v, n), open),
    ensures
        document(s, open, ls) == good(v, open),
{
}

/// A line for a primitive, an empty array or an empty object reads back.
proof fn lemma_flat_document(e: Style, s: Stores, open: Seq<Text>, v: Val)
    requires
        reads_back(e, v),
        v matches Val::Array(a) ==> a.len() == 0,
        v matches Val::Object(o) ==> o.len() == 0,
    ensures
        document(s, open, seq![Line { depth: 0, text: flat_text(v) }]) == good(v, open),
        read_back(e, v) == v,
{
    let ls = seq![Line { depth: 0, text: flat_text(v) }];
    match v {
        Val::Object(o) => {
            assert(o =~= seq![]);
            assert(read_entries(e, o, 0, true) =~= seq![]);
        },
        Val::Array(a) => {
            reveal_strlit("[]");
            reveal_strlit("{}");
            lemma_listed_eq(e, a);
            assert(a =~= seq![]);
            lemma_empty_no_colon();
            lemma_trim_of_trim("[]"@);
            assert("[]"@[0] != "{}"@[0]);
            assert(primitive(s, open, "[]"@) == (Val::Array(seq![]), open));
        },
        _ => {
            let p = primitive_text(v, ',');
            lemma_primitive_reads(s, open, v);
            lemma_listed(v);
        },
    }
}

/// The lines of a document read back as the value.
pub proof fn lemma_document_reads(e: Style, s: Stores, open: Seq<Text>, v: Val)
    requires
        resolves(e, s, open, written_value(e, v)),
        usable(e),
        reads_back(e, v),
        well_keyed(v),
    ensures
        document(s, open, written_value(e, v)) == good(read_back(e, v), open),
{
    match v {
        Val::Object(o) if o.len() > 0 => {
            lemma_object_document(e, s, open, o);
        },
        Val::Array(a) if a.len() > 0 => {
            lemma_array_document(e, s, open, a);
        },
        _ => {
            lemma_flat_document(e, s, open, v);
            assert(written_value(e, v) =~= seq![
                Line { depth: 0, text: flat_text(v) },
            ]);
        },
    }
}

/// The first line of an entry is no header without a key, and holds a colon.
pub proof fn lemma_first_entry(e: Style, k: Text, v: Val)
    requires
        usable(e),
        entry_reads(e, k, v, true),
    ensures
        ({
            let t = written_entry(e, k, v, 0, true)[0].text;
            &&& has_colon(t)
            &&& array_header(t) matches Some(h) ==> h.key is Some
        }),
{
    let w = written_entry(e, k, v, 0, true);
    let t = key_text(k);
    reveal_strlit(":");
    reveal_strlit(": ");
    if v is Array && v->Array_0.len() > 0 {
        let a = v->Array_0;
        lemma_array_parts(e, t, true, a, 0, 1);
        lemma_head(e, Some(k), a);
        assert(w[0].text == head_text(t, a));
        lemma_header_colon(w[0].text);
    } else if referred(e, v, true) is Some {
        let p = reference_text(referred(e, v, true)->0);
        lemma_reference_line(e, k, v, 0);
        assert(w[0].text =~= t + seq![':'] + (seq![' '] + p));
        lemma_key_line(k, seq![' '] + p);
    } else if v is Object && v->Object_0.len() > 0 {
        assert(w[0].text =~= t + seq![':'] + seq![]);
        lemma_key_line(k, seq![]);
    } else {
        lemma_first_text(e, k, v, 0);
        assert(w[0].text =~= t + seq![':'] + (seq![' '] + flat_text(v)));
        lemma_key_line(k, seq![' '] + flat_text(v));
    }
}

/// The lines of a value that reads back are a block.
pub proof fn lemma_value_block(e: Style, v: Val)
    requires
        usable(e),
        reads_back(e, v),
    ensures
        is_document(written_value(e, v)),
{
    let ls = written_value(e, v);
    match v {
        Val::Object(o) => {
            if o.len() == 0 {
                lemma_flat_line(v);
                assert(ls =~= seq![Line { depth: 0, text: flat_text(v) }]);
            } else {
                lemma_entries_block(e, o, 0, 0);
            }
        },
        Val::Array(a) => {
            if a.len() == 0 {
                lemma_flat_line(v);
                assert(ls =~= seq![Line { depth: 0, text: flat_text(v) }]);
            } else {
                lemma_array_parts(e, seq![], false, a, 0, 1);
                lemma_array_block(e, None, a, 0);
            }
        },
        _ => {
            lemma_flat_line(v);
            assert(ls =~= seq![Line { depth: 0, text: flat_text(v) }]);
        },
    }
}

/// A primitive, an empty array or an empty object on a line of its own.
proof fn lemma_flat_line(v: Val)
    requires
        is_simple(v) ==> token_reads(v),
    ensures
        is_document(seq![Line { depth: 0, text: flat_text(v) }]),
{
    let p = flat_text(v);
    lemma_flat_text(v);
    reveal_strlit("[]");
    reveal_strlit("{}");
    reveal_strlit("- ");
    if is_simple(v) && !no_marks(p) {
        lemma_primitive_reads(arbitrary(), arbitrary(), v);
        let s = choose|s: Text| p == quoted(s);
        lemma_quote_no_definition(p);
    } else {
        if is_simple(v) {
            assert forall|j: int| 0 <= j < p.len() implies p[j] != ':' by {
                assert(!unsafe_in_key(p[j]));
            }
        }
        lemma_no_definition(p, p.len() as int);
    }
    if is_item(p) {
        assert(p.subrange(0, 2)[0] == p[0]);
        assert(p.subrange(0, 2)[1] == p[1]);
        lemma_primitive_reads(arbitrary(), arbitrary(), v);
        if no_marks(p) {
            assert(!unsafe_in_key(p[1]));
        } else {
            let s = choose|s: Text| p == quoted(s);
        }
    }
    lemma_level_line(p, 0);
    lemma_block_line(Line { depth: 0, text: p });
}

/// Good lines nest, and fold.
pub proof fn lemma_block_nests(w: Seq<Line>)
    requires
        is_document(w),
    ensures
        nests(w),
        folds(w),
        begins_flat(w),
{
    reveal(falls_to);
    assert forall|i: int| 0 <= i < w.len() - 1 implies leads_to(#[trigger] w[i], w[i + 1])
        && unfolds_to(w[i], w[i + 1]) by {
        assert(good_line(w[i]));
        assert(follows(w[i], w[i + 1]));
        assert(w[i].depth >= 0);
        assert(w[i + 1].depth >= 0);
    }
    assert forall|i: int| 0 <= i < w.len() implies is_segment((#[trigger] w[i]).text) by {
        assert(good_line(w[i]));
    }
    assert forall|i: int|
        0 <= i < w.len() && flat_before(w, i) && (#[trigger] w[i]).depth > 0 implies w[i].depth
        == 1 by {
        if i > 0 {
            assert(w[i - 1].depth == 0);
            assert(is_single(w[i - 1]));
            assert(follows(w[i - 1], w[i - 1 + 1]));
        }
    }
}

/// Good lines are taken as they are.
pub proof fn lemma_taken(k: Known, w: Seq<Line>, done: Seq<Line>)
    requires
        forall|i: int| 0 <= i < w.len() ==> good_line(#[trigger] w[i]),
    ensures
        taken(k, w, done) == (k, done + w),
    decreases w.len(),
{
    if w.len() > 0 {
        let rest = w.drop_first();
        assert(good_line(w[0]));
        assert forall|i: int| 0 <= i < rest.len() implies good_line(#[trigger] rest[i]) by {
            assert(rest[i] == w[i + 1]);
        }
        lemma_taken(k, rest, done.push(w[0]));
        assert(done.push(w[0]) + rest =~= done + w);
    } else {
        assert(done + w =~= done);
    }
}

/// A style without definitions is usable.
pub proof fn lemma_plain_style(s: Stores, open: Seq<Text>, ls: Seq<Line>)
    ensures
        well_defined(plain_style()),
        resolves(plain_style(), s, open, ls),
{
    assert forall|name: Text| !has_key(plain_style().schemas, name) by {
        lemma_key_index(plain_style().schemas, name);
    }
}

/// The document for a value that reads back is laid out, and its lines are
/// those of the value.
proof fn lemma_encoded(v: Val, indent: nat)
    requires
        reads_back(plain_style(), v),
        well_keyed(v),
        indent >= 1,
    ensures
        laid_out(encode_text(v, indent)),
        structure_of(encode_text(v, indent)) == written_value(plain_style(), v),
        foldable(encode_text(v, indent)),
        said(written_value(plain_style(), v)) == Ok::<Val, Text>(read_back(plain_style(), v)),
{
    let w = written_value(plain_style(), v);
    let none: Seq<Line> = seq![];
    let s = encode_text(v, indent);
    lemma_plain_style(arbitrary(), arbitrary(), none);
    lemma_value_block(plain_style(), v);
    lemma_block_nests(w);
    assert(none + w =~= w);
    lemma_layout_is_laid_out(none, w, indent);
    let k = new_setting().known;
    assert forall|i: int| 0 <= i < w.len() implies good_line(#[trigger] w[i]) by {}
    lemma_plain_style(k.stores, k.open, w);
    lemma_taken(k, w, none);
    lemma_document_reads(plain_style(), k.stores, k.open, v);
    lemma_no_name_lines(w, indent);
}

/// In the layout of good lines none names the format.
proof fn lemma_no_name_lines(w: Seq<Line>, indent: nat)
    requires
        is_document(w),
        indent >= 1,
    ensures
        name_lines(lines(layout(w, indent)), 0) == Seq::<Line>::empty(),
{
    assert forall|i: int| 0 <= i < w.len() implies fits(#[trigger] w[i]) by {
        assert(good_line(w[i]));
    }
    lemma_lines_of_layout(w, indent);
    let ts = line_texts(w, indent);
    assert(good_line(w[0]));
    assert(fits(w[0]));
    lemma_line_text(w[0], indent);
    assert(ts[0] == line_text(w[0], indent));
    assert(trim(ts[0]) == w[0].text);
}

/// What is read back equals the value.
pub proof fn lemma_value_eq(e: Style, v: Val)
    requires
        well_defined(e),
        well_keyed(v),
        reads_back(e, v),
    ensures
        val_eq(read_back(e, v), v),
{
    match v {
        Val::Object(o) => {
            lemma_read_entries(e, o, 0, true);
            lemma_entries_eq(e, o, 0, true);
        },
        Val::Array(a) => {
            if a.len() == 0 {
                lemma_listed_eq(e, a);
            } else {
                lemma_array_eq(e, a);
            }
        },
        _ => {
            lemma_simple_eq(v);
        },
    }
}

/// A decoder reads back what an encoder wrote: the document for a value, with
/// any number of spaces to a level but none, holds a value that equals it. The
/// entries of rows of a table come back in the order of the first row.
pub proof fn decoding_undoes_encoding(v: Val, indent: nat)
    requires
        well_keyed(v),
        reads_back(plain_style(), v),
        indent >= 1,
    ensures
        decode_text(encode_text(v, indent)) == Ok::<Val, Text>(read_back(plain_style(), v)),
        val_eq(read_back(plain_style(), v), v),
{
    lemma_encoded(v, indent);
    lemma_decode_laid_out(encode_text(v, indent));
    lemma_plain_style(arbitrary(), arbitrary(), seq![]);
    lemma_value_eq(plain_style(), v);
}

/// A value also comes back from its document minified.
pub proof fn decoding_undoes_minified_encoding(v: Val, indent: nat)
    requires
        well_keyed(v),
        reads_back(plain_style(), v),
        indent >= 1,
    ensures
        decode_text(minified(encode_text(v, indent))) == Ok::<Val, Text>(read_back(plain_style(), v)),
{
    lemma_encoded(v, indent);
    decoding_undoes_encoding(v, indent);
    minifying_keeps_the_value(encode_text(v, indent));
}

/// Minifying the document for a value and expanding it gives the document for
/// the value with the new number of spaces to a level.
pub proof fn expanding_undoes_minified_encoding(v: Val, indent: nat, again: nat)
    requires
        well_keyed(v),
        reads_back(plain_style(), v),
        indent >= 1,
    ensures
        expanded(minified(encode_text(v, indent)), again) == encode_text(v, again),
{
    lemma_encoded(v, indent);
    let s = encode_text(v, indent);
    expanding_undoes_minifying(s, again);
    let w = written_value(plain_style(), v);
    lemma_plain_style(arbitrary(), arbitrary(), w);
    lemma_value_block(plain_style(), v);
    lemma_no_name_lines(w, indent);
    assert(name_lines(lines(s), 0) + w =~= w);
}

} // verus!
