//! What an encoder defines and refers to, a decoder reads back.

use vstd::prelude::*;
use crate::decoder::{decode_text, new_setting};
use crate::encoder::{
    all_definition_lines, begins_with_one, definition_lines, encoded, inline_fields, inline_items,
    inline_text, joined, key_text, layout, line_text, lines_without, next_group, orphans,
    primitive_text, pruned, schema_name, spaces, stores_for, unsafe_in_key, whole_text,
    with_repeated, without_leading_newlines, written_value, Manner, Style,
};
use crate::laying::{
    all_lines, begins_flat, falls_to, fits, flat_before, is_gap, is_segment, is_shut, leads_to,
    lemma_decode_laid_out, lemma_gap, lemma_layout_first, lemma_lines_of_layout,
    lemma_spaced_layout, lemma_spoken, lemma_spoken_concat, levels_read, line_texts,
    minifying_keeps_the_value, nests, said, spoken, taken,
};
use crate::lines::{define, definition_kind, is_silent, word_end, Known, Line};
use crate::minifier::{expected_depth, minified, semis_before};
use crate::readback::{
    gap, is_sound, is_trim, is_unit, key_reads, lemma_all_pieces, lemma_brace_behind,
    lemma_bracket_behind, lemma_even_sound, lemma_key_line, lemma_key_text, lemma_primitive_reads,
    lemma_quoted, lemma_sound_concat, lemma_token_unit, lemma_trim_of_trim, lemma_wrapped_unit,
    no_marks, place_at, sound_at, token_reads, wrapped,
};
use crate::roundtrip::{
    calm, flat_text, good_line, is_document, is_even, label_reads, lemma_block_nests,
    lemma_calm_concat, lemma_calm_even, lemma_document_reads, lemma_flat_text, lemma_reference_text,
    lemma_taken, lemma_value_block, lemma_value_eq, read_back, reads_back, reference_text, refers,
    resolves, usable,
};
use crate::scan::{brace_content, pieces};
use crate::schema_registry::{
    defined, entries_plain, is_plain, items_plain, prefix_of, ref_key,
    resolving_gives_what_was_registered, store, DefType, Stores,
};
use crate::text::{
    ends_with, find, find_text, holds_text, is_space, lemma_find_at, lemma_find_from,
    lemma_find_text, lines, starts_with, trim, trim_end, Text,
};
use crate::tokens::{
    delimited, inline_entries, inline_value, is_reference, primitive, reference, reference_head,
    reference_parts, unquoted,
};
use crate::treehash::{collected, Tallies};
use crate::value::{
    distinct, entries_well_keyed, entry, has_key, is_simple, items_well_keyed, key_index,
    lemma_entry_found, lemma_entry_smaller, lemma_item_smaller, lemma_key_index, lemma_put_distinct,
    lemma_put_new, val_eq, well_keyed, Entries, Val,
};

verus! {

// ---------------------------------------------------------------------------
// Values on one line

/// Whether a value reads back among others in brackets: a primitive that does,
/// or an array or an object without anything in it.
pub open spec fn flat_reads(v: Val) -> bool {
    match v {
        Val::Array(a) => a.len() == 0,
        Val::Object(o) => o.len() == 0,
        _ => token_reads(v),
    }
}

/// Whether a value reads back from one line. An array does only where none of
/// its items is an array or an object that holds something.
pub open spec fn inline_reads(v: Val) -> bool
    decreases v, 0int,
{
    match v {
        Val::Array(a) => forall|i: int| 0 <= i < a.len() ==> flat_reads(#[trigger] a[i]),
        Val::Object(o) => distinct(o) && fields_read(o, 0),
        _ => token_reads(v),
    }
}

/// Whether the entries from `i` on read back from one line.
pub open spec fn fields_read(o: Entries, i: int) -> bool
    decreases o, o.len() - i,
{
    if 0 <= i < o.len() {
        key_reads(o[i].0) && inline_reads(o[i].1) && fields_read(o, i + 1)
    } else {
        true
    }
}

/// How items are written on one line.
pub open spec fn item_texts(a: Seq<Val>) -> Seq<Text> {
    Seq::new(a.len(), |i: int| inline_text(a[i], ','))
}

/// How entries are written on one line.
pub open spec fn pair_texts(o: Entries) -> Seq<Text> {
    Seq::new(o.len(), |i: int| key_text(o[i].0) + seq![':'] + inline_text(o[i].1, ','))
}

/// Items are joined by commas and spaces.
proof fn lemma_items_joined(a: Seq<Val>, i: int)
    requires
        0 <= i <= a.len(),
    ensures
        inline_items(a, ',', i) == joined(item_texts(a), seq![','] + gap(true), i),
    decreases a.len() - i,
{
    reveal_strlit(", ");
    assert(", "@ =~= seq![','] + gap(true));
    if i < a.len() {
        lemma_items_joined(a, i + 1);
    }
}

/// Entries are joined by commas and spaces.
proof fn lemma_fields_joined(o: Entries, i: int)
    requires
        0 <= i <= o.len(),
    ensures
        inline_fields(o, ',', i) == joined(pair_texts(o), seq![','] + gap(true), i),
    decreases o.len() - i,
{
    reveal_strlit(", ");
    assert(", "@ =~= seq![','] + gap(true));
    if i < o.len() {
        lemma_fields_joined(o, i + 1);
        let sep: Text = if i > 0 {
            ", "@
        } else {
            seq![]
        };
        assert(sep + key_text(o[i].0) + seq![':'] + inline_text(o[i].1, ',') =~= sep + pair_texts(o)[i]);
    }
}

/// Whether `t` is a unit that can stand on a line and does not end with a colon.
pub open spec fn is_piece(t: Text) -> bool {
    is_unit(t) && is_trim(t) && !t.contains('\n') && t.last() != ':'
}

/// Pieces that are joined are sound.
proof fn lemma_joined_sound(parts: Seq<Text>, i: int)
    requires
        0 <= i <= parts.len(),
        forall|j: int| 0 <= j < parts.len() ==> is_piece(#[trigger] parts[j]),
    ensures
        is_sound(joined(parts, seq![','] + gap(true), i)),
        !joined(parts, seq![','] + gap(true), i).contains('\n'),
    decreases parts.len() - i,
{
    let sep = seq![','] + gap(true);
    let x = joined(parts, sep, i);
    if i < parts.len() {
        let rest = joined(parts, sep, i + 1);
        lemma_joined_sound(parts, i + 1);
        assert(is_piece(parts[i]));
        let lead = if i > 0 {
            sep
        } else {
            seq![]
        };
        lemma_even_sound(lead);
        lemma_sound_concat(lead, parts[i]);
        lemma_sound_concat(lead + parts[i], rest);
        assert forall|j: int| 0 <= j < x.len() implies x[j] != '\n' by {
            if j < lead.len() {
                assert(x[j] == lead[j]);
            } else if j < lead.len() + parts[i].len() {
                assert(x[j] == parts[i][j - lead.len()]);
            } else {
                assert(x[j] == rest[j - lead.len() - parts[i].len()]);
            }
        }
    } else {
        let none: Text = seq![];
        assert(x =~= none);
        lemma_even_sound(none);
    }
}

/// A sound text in braces or in brackets is a piece.
proof fn lemma_wrapped_piece(mid: Text, bracket: bool)
    requires
        is_sound(mid),
        !mid.contains('\n'),
    ensures
        is_piece(wrapped(mid, bracket)),
{
    let t = wrapped(mid, bracket);
    lemma_wrapped_unit(mid, bracket);
    assert forall|j: int| 0 <= j < t.len() implies t[j] != '\n' by {
        if 0 < j <= mid.len() {
            assert(t[j] == mid[j - 1]);
        }
    }
}

/// The text of a primitive that reads back is a piece.
proof fn lemma_primitive_piece(v: Val)
    requires
        is_simple(v),
        token_reads(v),
    ensures
        is_piece(primitive_text(v, ',')),
{
    lemma_primitive_reads(arbitrary(), arbitrary(), v);
    lemma_token_unit(primitive_text(v, ','));
    lemma_flat_text(v);
}

/// A value that reads back from one line is a piece there.
pub proof fn lemma_inline_piece(v: Val)
    requires
        inline_reads(v),
    ensures
        is_piece(inline_text(v, ',')),
    decreases v, 0int,
{
    match v {
        Val::Array(a) => {
            let parts = item_texts(a);
            assert forall|j: int| 0 <= j < parts.len() implies is_piece(#[trigger] parts[j]) by {
                assert(flat_reads(a[j]));
                lemma_flat_piece(a[j]);
            }
            lemma_items_joined(a, 0);
            lemma_joined_sound(parts, 0);
            lemma_wrapped_piece(inline_items(a, ',', 0), true);
        },
        Val::Object(o) => {
            assert(decreases_to!(v => o));
            let parts = pair_texts(o);
            assert forall|j: int| 0 <= j < parts.len() implies is_piece(#[trigger] parts[j]) by {
                lemma_pair_piece(o, 0, j);
            }
            lemma_fields_joined(o, 0);
            lemma_joined_sound(parts, 0);
            lemma_wrapped_piece(inline_fields(o, ',', 0), false);
        },
        _ => {
            lemma_primitive_piece(v);
        },
    }
}

/// An entry that reads back from one line is a piece there.
proof fn lemma_pair_piece(o: Entries, i: int, j: int)
    requires
        fields_read(o, i),
        0 <= i <= j < o.len(),
    ensures
        key_reads(o[j].0),
        inline_reads(o[j].1),
        is_piece(pair_texts(o)[j]),
    decreases o, o.len() - i,
{
    if i < j {
        lemma_pair_piece(o, i + 1, j);
    } else {
        lemma_entry_smaller(o, j);
        lemma_inline_piece(o[j].1);
        lemma_key_text(o[j].0);
        let k = key_text(o[j].0);
        let x = inline_text(o[j].1, ',');
        let colon: Text = seq![':'];
        lemma_token_unit(k);
        lemma_even_sound(colon);
        lemma_sound_concat(k, colon);
        lemma_sound_concat(k + colon, x);
        let t = k + colon + x;
        assert forall|q: int| 0 <= q < t.len() implies t[q] != '\n' by {
            if q < k.len() {
                assert(t[q] == k[q]);
            } else if q > k.len() {
                assert(t[q] == x[q - k.len() - 1]);
            }
        }
        assert(t.last() == x.last());
        assert(t[0] == k[0]);
    }
}

/// How an item in brackets is written, and what it reads back as.
proof fn lemma_flat_piece(v: Val)
    requires
        flat_reads(v),
    ensures
        inline_text(v, ',') == flat_text(v),
        is_piece(inline_text(v, ',')),
{
    let none: Text = seq![];
    reveal_strlit("[]");
    reveal_strlit("{}");
    lemma_even_sound(none);
    match v {
        Val::Array(a) => {
            assert(inline_items(a, ',', 0) =~= none);
            assert(inline_text(v, ',') =~= "[]"@);
            assert(inline_text(v, ',') == wrapped(none, true));
            lemma_wrapped_piece(none, true);
        },
        Val::Object(o) => {
            assert(inline_fields(o, ',', 0) =~= none);
            assert(inline_text(v, ',') =~= "{}"@);
            assert(inline_text(v, ',') == wrapped(none, false));
            lemma_wrapped_piece(none, false);
        },
        _ => {
            lemma_primitive_piece(v);
        },
    }
}

/// An item in brackets reads back, with a space before it or without.
proof fn lemma_flat_reads(s: Stores, open: Seq<Text>, v: Val)
    requires
        flat_reads(v),
    ensures
        primitive(s, open, flat_text(v)) == (v, open),
        primitive(s, open, seq![' '] + flat_text(v)) == (v, open),
{
    match v {
        Val::Array(a) => {
            reveal_strlit("[]");
            assert(a =~= seq![]);
            lemma_trim_of_trim("[]"@);
        },
        Val::Object(o) => {
            reveal_strlit("{}");
            reveal_strlit("[]");
            assert(o =~= seq![]);
            lemma_trim_of_trim("{}"@);
            assert("{}"@[0] != "[]"@[0]);
        },
        _ => {
            lemma_primitive_reads(s, open, v);
        },
    }
}

/// The items in brackets from the `i`-th on read back.
proof fn lemma_items_read(s: Stores, open: Seq<Text>, a: Seq<Val>, i: int, done: Seq<Val>)
    requires
        0 <= i <= a.len(),
        a.len() > 0,
        forall|j: int| 0 <= j < a.len() ==> flat_reads(#[trigger] a[j]),
        done == a.subrange(0, i),
    ensures
        delimited(s, open, inline_items(a, ',', 0), ',', i, done) == (a, open),
    decreases a.len() - i,
{
    let parts = item_texts(a);
    assert forall|j: int| 0 <= j < parts.len() implies is_unit(#[trigger] parts[j]) by {
        assert(flat_reads(a[j]));
        lemma_flat_piece(a[j]);
    }
    lemma_items_joined(a, 0);
    lemma_all_pieces(parts, true);
    let x = inline_items(a, ',', 0);
    if i < a.len() {
        assert(flat_reads(a[i]));
        lemma_flat_piece(a[i]);
        lemma_flat_reads(s, open, a[i]);
        let piece = pieces(x, ',')[i];
        assert(primitive(s, open, piece) == (a[i], open));
        assert(done.push(a[i]) =~= a.subrange(0, i + 1));
        lemma_items_read(s, open, a, i + 1, done.push(a[i]));
    } else {
        assert(done =~= a);
    }
}

/// A key without the quotes in which it is written is the key.
proof fn lemma_unquoted(k: Text)
    requires
        key_reads(k),
    ensures
        unquoted(key_text(k)) == k,
{
    let t = key_text(k);
    lemma_key_text(k);
    lemma_trim_of_trim(t);
    if no_marks(k) && k.len() > 0 {
        assert(!unsafe_in_key(k[0]));
    } else {
        lemma_quoted(k, seq![]);
        assert(t + Seq::<char>::empty() =~= t);
    }
}

/// A value reads back from one line.
pub proof fn lemma_inline_reads(s: Stores, open: Seq<Text>, v: Val)
    requires
        inline_reads(v),
    ensures
        inline_value(s, open, inline_text(v, ',')) == (v, open),
    decreases v, 0int,
{
    let t = inline_text(v, ',');
    lemma_inline_piece(v);
    lemma_trim_of_trim(t);
    match v {
        Val::Array(a) => {
            let mid = inline_items(a, ',', 0);
            assert(t == wrapped(mid, true));
            lemma_items_sound(a);
            lemma_bracket_behind(mid, 0);
            assert(t.subrange(1, mid.len() as int + 1) =~= mid);
            if a.len() > 0 {
                assert(a.subrange(0, 0) =~= seq![]);
                lemma_items_read(s, open, a, 0, seq![]);
            } else {
                assert(mid =~= seq![]);
                assert(a =~= seq![]);
            }
        },
        Val::Object(o) => {
            assert(decreases_to!(v => o));
            let mid = inline_fields(o, ',', 0);
            assert(t == wrapped(mid, false));
            lemma_fields_sound(o);
            lemma_brace_behind(mid, 0);
            assert(t.subrange(1, mid.len() as int + 1) =~= mid);
            assert(brace_content(t) == Some(mid));
            assert(o.subrange(0, 0) =~= seq![]);
            lemma_fields_read(s, open, o, 0, seq![]);
        },
        _ => {
            lemma_primitive_reads(s, open, v);
        },
    }
}

/// Items that read back are sound on one line.
proof fn lemma_items_sound(a: Seq<Val>)
    requires
        forall|j: int| 0 <= j < a.len() ==> flat_reads(#[trigger] a[j]),
    ensures
        is_sound(inline_items(a, ',', 0)),
{
    let parts = item_texts(a);
    assert forall|j: int| 0 <= j < parts.len() implies is_piece(#[trigger] parts[j]) by {
        assert(flat_reads(a[j]));
        lemma_flat_piece(a[j]);
    }
    lemma_items_joined(a, 0);
    lemma_joined_sound(parts, 0);
}

/// Entries that read back are sound on one line.
proof fn lemma_fields_sound(o: Entries)
    requires
        fields_read(o, 0),
    ensures
        is_sound(inline_fields(o, ',', 0)),
{
    let parts = pair_texts(o);
    assert forall|j: int| 0 <= j < parts.len() implies is_piece(#[trigger] parts[j]) by {
        lemma_pair_piece(o, 0, j);
    }
    lemma_fields_joined(o, 0);
    lemma_joined_sound(parts, 0);
}

/// The entries in braces from the `i`-th on read back.
proof fn lemma_fields_read(s: Stores, open: Seq<Text>, o: Entries, i: int, done: Entries)
    requires
        0 <= i <= o.len(),
        distinct(o),
        fields_read(o, 0),
        done == o.subrange(0, i),
    ensures
        inline_entries(s, open, inline_fields(o, ',', 0), i, done) == (o, open),
    decreases o, o.len() - i,
{
    let parts = pair_texts(o);
    let x = inline_fields(o, ',', 0);
    assert forall|j: int| 0 <= j < parts.len() implies is_piece(#[trigger] parts[j]) by {
        lemma_pair_piece(o, 0, j);
    }
    lemma_fields_joined(o, 0);
    if o.len() > 0 {
        assert forall|j: int| 0 <= j < parts.len() implies is_unit(#[trigger] parts[j]) by {
            assert(is_piece(parts[j]));
        }
        lemma_all_pieces(parts, true);
    }
    if i < o.len() {
        let k = o[i].0;
        let v = o[i].1;
        let p = parts[i];
        let n = key_text(k).len() as int;
        lemma_pair_piece(o, 0, i);
        lemma_entry_smaller(o, i);
        lemma_inline_reads(s, open, v);
        lemma_key_line(k, inline_text(v, ','));
        lemma_unquoted(k);
        assert(is_piece(parts[i]));
        lemma_trim_of_trim(p);
        assert(trim(pieces(x, ',')[i]) == p);
        assert(p.subrange(n + 1, p.len() as int) =~= inline_text(v, ','));
        assert(p.subrange(0, n) =~= key_text(k));
        assert forall|j: int| 0 <= j < done.len() implies (#[trigger] done[j]).0 != k by {
            assert(done[j] == o[j]);
        }
        lemma_put_new(done, k, v);
        assert(done.push((k, v)) =~= o.subrange(0, i + 1));
        lemma_fields_read(s, open, o, i + 1, done.push((k, v)));
    } else {
        assert(done =~= o);
        if o.len() == 0 {
            assert(x =~= seq![]);
        }
    }
}

// ---------------------------------------------------------------------------
// Definitions on their lines

/// Whether a definition can stand on a line: its name does, and what it defines
/// reads back from one line.
pub open spec fn definition_fits(x: (Text, Val)) -> bool {
    label_reads(x.0) && inline_reads(x.1)
}

/// Whether definitions can stand on lines.
pub open spec fn definitions_fit(d: Entries) -> bool {
    forall|i: int| 0 <= i < d.len() ==> definition_fits(#[trigger] d[i])
}

/// Whether a definition reads back where it is referred to: it also holds
/// neither references nor a key twice.
pub open spec fn definition_reads(x: (Text, Val)) -> bool {
    definition_fits(x) && is_plain(x.1)
}

/// Whether definitions read back where they are referred to.
pub open spec fn definitions_read(d: Entries) -> bool {
    forall|i: int| 0 <= i < d.len() ==> definition_reads(#[trigger] d[i])
}

/// Whether no two definitions of a kind have the same name.
pub open spec fn all_distinct(s: Stores) -> bool {
    distinct(s.schemas) && distinct(s.responses) && distinct(s.security)
}

/// Whether definitions of all kinds read back: schemas where they are referred
/// to, the others on their lines.
pub open spec fn all_read(s: Stores) -> bool {
    definitions_read(s.schemas) && definitions_fit(s.responses) && definitions_fit(s.security)
}

/// What the line of a definition begins with.
pub open spec fn mark(d: DefType) -> Text {
    match d {
        DefType::Schema => "s:"@,
        DefType::Response => "r:"@,
        DefType::Security => "sec:"@,
    }
}

/// The line for a definition.
pub open spec fn definition_text(d: DefType, x: (Text, Val)) -> Text {
    mark(d) + x.0 + seq![' '] + inline_text(x.1, ',')
}

/// The lines for the definitions of one kind.
pub open spec fn group(s: Stores, d: DefType) -> Seq<Line> {
    definition_lines(mark(d), store(s, d), ',')
}

/// A sound text is calm.
proof fn lemma_sound_calm(t: Text)
    requires
        is_sound(t),
    ensures
        calm(t),
{
    assert forall|j: int| 0 <= j < t.len() && t[j] == ';' implies (#[trigger] place_at(t, j)).skip
        || place_at(t, j).quoted by {
        assert(sound_at(t[j], place_at(t, j)));
    }
}

/// What the line of a definition begins with tells its kind.
proof fn lemma_mark(d: DefType, rest: Text)
    ensures
        ({
            let c = mark(d) + rest;
            &&& definition_kind(c) == Some(d)
            &&& !is_silent(c)
            &&& !starts_with(c, "- "@)
            &&& d != DefType::Schema ==> !starts_with(c, "s:"@)
            &&& !is_space(c[0])
            &&& c[0] != '#'
        }),
        mark(d).len() == prefix_of(d).len() + 1,
        mark(d).len() >= 2,
        !mark(d).contains('\n'),
        is_even(mark(d)),
{
    let c = mark(d) + rest;
    reveal_strlit("s:");
    reveal_strlit("s");
    reveal_strlit("r:");
    reveal_strlit("r");
    reveal_strlit("sec:");
    reveal_strlit("sec");
    reveal_strlit("@@");
    reveal_strlit("@use ");
    reveal_strlit("- ");
    assert(c.subrange(0, mark(d).len() as int) =~= mark(d));
    assert(c[0] == mark(d)[0]);
    assert(c[1] == mark(d)[1]);
    assert(!is_silent(c)) by {
        if starts_with(c, "@@"@) {
            assert(c.subrange(0, 2)[0] == "@@"@[0]);
        }
        if starts_with(c, "@use "@) {
            assert(c.subrange(0, 5)[0] == "@use "@[0]);
        }
    }
    if starts_with(c, "- "@) {
        assert(c.subrange(0, 2)[0] == "- "@[0]);
    }
    if d != DefType::Schema && starts_with(c, "s:"@) {
        assert(c.subrange(0, 2)[0] == c[0]);
        assert(c.subrange(0, 2)[1] == c[1]);
    }
    if d == DefType::Security && starts_with(c, "r:"@) {
        assert(c.subrange(0, 2)[0] == c[0]);
    }
}

/// The line for a definition defines what was defined.
proof fn lemma_define(k: Known, d: DefType, x: (Text, Val))
    requires
        definition_fits(x),
    ensures
        define(k, definition_text(d, x), d) == (Known {
            stores: defined(k.stores, d, x.0, x.1),
            open: k.open,
        }),
        definition_kind(definition_text(d, x)) == Some(d),
        !is_silent(definition_text(d, x)),
{
    let c = definition_text(d, x);
    let name = x.0;
    let body = inline_text(x.1, ',');
    lemma_inline_piece(x.1);
    lemma_inline_reads(k.stores, k.open, x.1);
    let after = name + seq![' '] + body;
    assert(c =~= mark(d) + after);
    lemma_mark(d, after);
    let n = mark(d).len() as int;
    assert(c.subrange(n, c.len() as int) =~= after);
    assert(!is_space(name[0]));
    assert(after[0] == name[0]);
    assert(after.last() == body.last());
    lemma_trim_of_trim(after);
    lemma_word_end(after, name.len() as int, 0);
    assert(after.subrange(0, name.len() as int) =~= name);
    assert(after.subrange(name.len() as int, after.len() as int) =~= seq![' '] + body);
    lemma_trim_of_trim(body);
}

/// The first word of a text ends before the first white space.
proof fn lemma_word_end(t: Text, n: int, i: int)
    requires
        0 <= i <= n < t.len(),
        forall|j: int| 0 <= j < n ==> !is_space(#[trigger] t[j]),
        is_space(t[n]),
    ensures
        word_end(t, i) == n,
    decreases n - i,
{
    if i < n {
        assert(!is_space(t[i]));
        lemma_word_end(t, n, i + 1);
    }
}

/// Whether a line stands at the margin, can stand on one line with others, and
/// opens no level.
pub open spec fn is_steady(l: Line) -> bool {
    &&& l.depth == 0
    &&& is_segment(l.text)
    &&& is_shut(l.text)
    &&& expected_depth(l.text, 0) == 0
    &&& levels_read(l.text) == 0
}

/// The line for a definition is steady.
proof fn lemma_definition_line(d: DefType, x: (Text, Val))
    requires
        definition_fits(x),
    ensures
        is_steady(Line { depth: 0, text: definition_text(d, x) }),
        d != DefType::Schema ==> !starts_with(definition_text(d, x), "s:"@),
{
    let c = definition_text(d, x);
    let name = x.0;
    let body = inline_text(x.1, ',');
    let blank: Text = seq![' '];
    assert(c =~= mark(d) + (name + blank + body));
    lemma_define(arbitrary(), d, x);
    lemma_mark(d, name + blank + body);
    reveal_strlit(":");
    lemma_inline_piece(x.1);
    lemma_sound_calm(body);
    assert(is_even(blank));
    lemma_calm_even(mark(d));
    lemma_calm_even(blank);
    lemma_calm_concat(mark(d), name);
    lemma_calm_concat(mark(d) + name, blank);
    lemma_calm_concat(mark(d) + name + blank, body);
    let n = mark(d).len() as int;
    assert(c.last() == body.last());
    assert forall|j: int| 0 <= j < c.len() implies c[j] != '\n' by {
        if j < n {
            assert(c[j] == mark(d)[j]);
        } else if j < n + name.len() {
            assert(c[j] == name[j - n]);
            assert(!is_space(name[j - n]));
        } else if j > n + name.len() {
            assert(c[j] == body[j - n - 1 - name.len()]);
        }
    }
    assert(!ends_with(c, ":"@)) by {
        if ends_with(c, ":"@) {
            assert(c.subrange(c.len() - 1, c.len() as int)[0] == c.last());
        }
    }
}

/// The lines of definitions of one kind are steady.
proof fn lemma_group(s: Stores, d: DefType)
    requires
        definitions_fit(store(s, d)),
    ensures
        forall|i: int| 0 <= i < group(s, d).len() ==> is_steady(#[trigger] group(s, d)[i]),
        forall|i: int|
            0 <= i < group(s, d).len() && d != DefType::Schema ==> !starts_with(
                (#[trigger] group(s, d)[i]).text,
                "s:"@,
            ),
{
    let g = group(s, d);
    assert forall|i: int| 0 <= i < g.len() implies is_steady(#[trigger] g[i]) && (d
        != DefType::Schema ==> !starts_with(g[i].text, "s:"@)) by {
        assert(definition_fits(store(s, d)[i]));
        lemma_definition_line(d, store(s, d)[i]);
        assert(g[i] == (Line { depth: 0, text: definition_text(d, store(s, d)[i]) }));
    }
}

/// The definitions with those of one kind in the place of what they were.
pub open spec fn with_store(s: Stores, d: DefType, o: Entries) -> Stores {
    match d {
        DefType::Schema => Stores { schemas: o, ..s },
        DefType::Response => Stores { responses: o, ..s },
        DefType::Security => Stores { security: o, ..s },
    }
}

/// Definitions of one kind are taken in.
proof fn lemma_taken_definitions(k: Known, d: DefType, o: Entries, i: int, w: Seq<Line>)
    requires
        0 <= i <= o.len(),
        distinct(o),
        definitions_fit(o),
        store(k.stores, d) == o.subrange(0, i),
    ensures
        taken(k, definition_lines(mark(d), o, ',').subrange(i, o.len() as int) + w, seq![])
            == taken(Known { stores: with_store(k.stores, d, o), ..k }, w, seq![]),
    decreases o.len() - i,
{
    let all = definition_lines(mark(d), o, ',');
    let ls = all.subrange(i, o.len() as int) + w;
    let have = store(k.stores, d);
    if i < o.len() {
        assert(definition_fits(o[i]));
        lemma_define(k, d, o[i]);
        assert(ls[0] == all[i]);
        assert(ls[0].text == definition_text(d, o[i]));
        assert(ls.drop_first() =~= all.subrange(i + 1, o.len() as int) + w);
        assert forall|j: int| 0 <= j < have.len() implies (#[trigger] have[j]).0 != o[i].0 by {
            assert(have[j] == o[j]);
        }
        lemma_put_new(have, o[i].0, o[i].1);
        let more = define(k, ls[0].text, d);
        assert((o[i].0, o[i].1) == o[i]);
        assert(store(more.stores, d) =~= o.subrange(0, i + 1));
        lemma_taken_definitions(more, d, o, i + 1, w);
        assert(with_store(more.stores, d, o) == with_store(k.stores, d, o));
    } else {
        assert(ls =~= w);
        assert(o.subrange(0, i) =~= o);
        assert(with_store(k.stores, d, o) == k.stores);
    }
}

/// Definitions of all kinds are taken in by a new decoder.
proof fn lemma_all_taken(s: Stores, w: Seq<Line>)
    requires
        all_distinct(s),
        all_read(s),
    ensures
        taken(
            new_setting().known,
            group(s, DefType::Schema) + group(s, DefType::Response) + group(s, DefType::Security)
                + w,
            seq![],
        ) == taken(Known { stores: s, ..new_setting().known }, w, seq![]),
{
    let k = new_setting().known;
    let a = group(s, DefType::Schema);
    let b = group(s, DefType::Response);
    let c = group(s, DefType::Security);
    assert forall|i: int| 0 <= i < s.schemas.len() implies definition_fits(#[trigger] s.schemas[i]) by {
        assert(definition_reads(s.schemas[i]));
    }
    assert(s.schemas.subrange(0, 0) =~= seq![]);
    assert(s.responses.subrange(0, 0) =~= seq![]);
    assert(s.security.subrange(0, 0) =~= seq![]);
    assert(a.subrange(0, a.len() as int) =~= a);
    assert(b.subrange(0, b.len() as int) =~= b);
    assert(c.subrange(0, c.len() as int) =~= c);
    assert(a + b + c + w =~= a + (b + (c + w)));
    let k1 = Known { stores: with_store(k.stores, DefType::Schema, s.schemas), ..k };
    let k2 = Known { stores: with_store(k1.stores, DefType::Response, s.responses), ..k1 };
    lemma_taken_definitions(k, DefType::Schema, s.schemas, 0, b + (c + w));
    lemma_taken_definitions(k1, DefType::Response, s.responses, 0, c + w);
    lemma_taken_definitions(k2, DefType::Security, s.security, 0, w);
}

/// A reference to a definition reads back as what is defined.
proof fn lemma_reference_reads(s: Stores, d: Entries, i: int)
    requires
        s.schemas == d,
        distinct(d),
        definitions_read(d),
        0 <= i < d.len(),
    ensures
        inline_value(s, seq![], reference_text(d[i].0)) == (d[i].1, Seq::<Text>::empty()),
{
    let name = d[i].0;
    let t = reference_text(name);
    let open = Seq::<Text>::empty();
    assert(definition_reads(d[i]));
    lemma_reference_text(name);
    lemma_trim_of_trim(t);
    reveal_strlit("@s:");
    reveal_strlit("[]");
    reveal_strlit("{}");
    assert(t.subrange(0, 3) =~= "@s:"@);
    assert(is_reference(t));
    assert(t != "[]"@ && t != "{}"@) by {
        assert(t[0] == '@');
        assert("[]"@[0] == '[' && "{}"@[0] == '{');
    }
    lemma_no_choice(t);
    lemma_find_from(t, '{', 0);
    if find(t, '{') is Some {
        let b = find(t, '{')->0;
        assert(name[b - 3] == '{');
    }
    lemma_reference_parts(name);
    lemma_entry_found(d, i);
    assert(!open.contains(ref_key(DefType::Schema, name)));
    resolving_gives_what_was_registered(s, open, DefType::Schema, name, d[i].1);
    assert(reference(s, open, t) == (d[i].1, open));
    assert(primitive(s, open, t) == (d[i].1, open));
}

/// A reference without white space is no choice.
proof fn lemma_no_choice(t: Text)
    requires
        forall|j: int| 0 <= j < t.len() ==> t[j] != ' ',
    ensures
        find_text(t, " | "@, 0) is None,
{
    reveal_strlit(" | ");
    lemma_find_text(t, " | "@, 0);
    if find_text(t, " | "@, 0) is Some {
        let k = find_text(t, " | "@, 0)->0;
        assert(t.subrange(k, k + 3)[0] == t[k]);
    }
}

/// What a reference names.
proof fn lemma_reference_parts(name: Text)
    requires
        label_reads(name),
    ensures
        reference_head(reference_text(name)) == reference_text(name),
        reference_parts(reference_text(name)) == Some((DefType::Schema, name)),
        forall|j: int| 0 <= j < reference_text(name).len() ==> reference_text(name)[j] != ' ',
{
    let t = reference_text(name);
    reveal_strlit("@s:");
    reveal_strlit("s");
    lemma_reference_text(name);
    lemma_trim_of_trim(t);
    assert forall|j: int| 0 <= j < t.len() implies t[j] != ' ' && t[j] != '{' by {
        if j >= 3 {
            assert(t[j] == name[j - 3]);
            assert(!is_space(name[j - 3]));
        }
    }
    lemma_find_from(t, '{', 0);
    let rest = t.subrange(1, t.len() as int);
    lemma_find_at(rest, ':', 1);
    assert(rest.subrange(0, 1) =~= "s"@);
    assert(rest.subrange(2, rest.len() as int) =~= name);
    assert(!is_space(name[0]) && !is_space(name[name.len() - 1]));
    lemma_trim_of_trim(name);
    assert(trim_end(t) == t);
}

// ---------------------------------------------------------------------------
// Definitions that stay

/// The definitions from `i` on that a reference in `text` names.
pub open spec fn named(d: Entries, text: Text, i: int) -> Entries
    decreases d.len() - i,
{
    if 0 <= i < d.len() {
        (if refers(text, d[i].0) {
            seq![d[i]]
        } else {
            seq![]
        }) + named(d, text, i + 1)
    } else {
        seq![]
    }
}

/// The definitions that are named are definitions, and none has the name of
/// another.
proof fn lemma_named(d: Entries, text: Text, i: int)
    requires
        0 <= i <= d.len(),
        distinct(d),
    ensures
        distinct(named(d, text, i)),
        forall|j: int|
            0 <= j < named(d, text, i).len() ==> is_from(d, i, #[trigger] named(d, text, i)[j]),
    decreases d.len() - i,
{
    if i < d.len() {
        lemma_named(d, text, i + 1);
        let more = named(d, text, i + 1);
        let all = named(d, text, i);
        let n: int = if refers(text, d[i].0) {
            1
        } else {
            0
        };
        assert forall|j: int| 0 <= j < all.len() implies is_from(d, i, #[trigger] all[j]) by {
            if j >= n {
                assert(all[j] == more[j - n]);
                assert(is_from(d, i + 1, more[j - n]));
                let q = choose|q: int| i + 1 <= q < d.len() && d[q] == more[j - n];
                assert(d[q] == all[j]);
            } else {
                assert(d[i] == all[j]);
            }
        }
        assert forall|a: int, b: int| 0 <= a < b < all.len() implies all[a].0 != all[b].0 by {
            assert(all[b] == more[b - n]);
            assert(is_from(d, i + 1, more[b - n]));
            let q = choose|q: int| i + 1 <= q < d.len() && d[q] == more[b - n];
            if a >= n {
                assert(all[a] == more[a - n]);
            } else {
                assert(d[i].0 != d[q].0);
            }
        }
    }
}

/// Whether `x` is one of the definitions from `i` on.
pub open spec fn is_from(d: Entries, i: int, x: (Text, Val)) -> bool {
    exists|q: int| i <= q < d.len() && #[trigger] d[q] == x
}

/// A definition that a reference names is among those.
proof fn lemma_named_has(d: Entries, text: Text, i: int, k: int) -> (j: int)
    requires
        0 <= i <= k < d.len(),
        refers(text, d[k].0),
    ensures
        0 <= j < named(d, text, i).len(),
        named(d, text, i)[j] == d[k],
    decreases k - i,
{
    if i < k {
        let j = lemma_named_has(d, text, i + 1, k);
        let n: int = if refers(text, d[i].0) {
            1
        } else {
            0
        };
        assert(named(d, text, i)[j + n] == named(d, text, i + 1)[j]);
        j + n
    } else {
        0
    }
}

/// How the line of a definition begins.
pub open spec fn definition_start(name: Text) -> Text {
    "s:"@ + name + " "@
}

/// A definition that no reference names is an orphan.
proof fn lemma_orphan(d: Entries, text: Text, i: int, k: int)
    requires
        0 <= i <= k < d.len(),
        !refers(text, d[k].0),
    ensures
        orphans(d, text, i).contains(definition_start(d[k].0)),
    decreases k - i,
{
    let all = orphans(d, text, i);
    if i < k {
        lemma_orphan(d, text, i + 1, k);
        let more = orphans(d, text, i + 1);
        let j = choose|j: int| 0 <= j < more.len() && more[j] == definition_start(d[k].0);
        let n: int = all.len() - more.len();
        assert(all[j + n] == more[j]);
    } else {
        assert(all[0] == definition_start(d[k].0));
    }
}

/// An orphan is a definition that no reference names.
proof fn lemma_orphan_of(d: Entries, text: Text, i: int, j: int) -> (k: int)
    requires
        0 <= i <= d.len(),
        0 <= j < orphans(d, text, i).len(),
    ensures
        i <= k < d.len(),
        orphans(d, text, i)[j] == definition_start(d[k].0),
        !refers(text, d[k].0),
    decreases d.len() - i,
{
    let all = orphans(d, text, i);
    let more = orphans(d, text, i + 1);
    if refers(text, d[i].0) {
        assert(all =~= more);
        lemma_orphan_of(d, text, i + 1, j)
    } else if j == 0 {
        i
    } else {
        assert(all[j] == more[j - 1]);
        lemma_orphan_of(d, text, i + 1, j - 1)
    }
}

/// The line of a definition begins with the name of no other.
proof fn lemma_own_start(x: (Text, Val), name: Text)
    requires
        label_reads(x.0),
        label_reads(name),
        starts_with(definition_text(DefType::Schema, x), definition_start(name)),
    ensures
        x.0 == name,
{
    let c = definition_text(DefType::Schema, x);
    let p = definition_start(name);
    reveal_strlit("s:");
    reveal_strlit(" ");
    assert forall|j: int| 0 <= j < p.len() implies c[j] == p[j] by {
        assert(c.subrange(0, p.len() as int)[j] == c[j]);
    }
    let m = name.len() as int;
    let n = x.0.len() as int;
    assert(p[2 + m] == ' ');
    assert(c[2 + n] == ' ');
    if m < n {
        assert(c[2 + m] == x.0[m]);
        assert(!is_space(x.0[m]));
    }
    if n < m {
        assert(p[2 + n] == name[n]);
        assert(!is_space(name[n]));
    }
    assert forall|j: int| 0 <= j < n implies x.0[j] == name[j] by {
        assert(c[2 + j] == x.0[j]);
        assert(p[2 + j] == name[j]);
    }
    assert(x.0 =~= name);
}

/// Lines that begin with none of `starts` stay.
proof fn lemma_lines_stay(ls: Seq<Text>, starts: Seq<Text>, i: int)
    requires
        0 <= i <= ls.len(),
        forall|j: int| i <= j < ls.len() ==> !begins_with_one(#[trigger] ls[j], starts),
    ensures
        lines_without(ls, starts, i) == ls.subrange(i, ls.len() as int),
    decreases ls.len() - i,
{
    if i < ls.len() {
        lemma_lines_stay(ls, starts, i + 1);
        assert(!begins_with_one(ls[i], starts));
        assert(ls.subrange(i, ls.len() as int) =~= seq![ls[i]] + ls.subrange(
            i + 1,
            ls.len() as int,
        ));
    }
}

/// A line at the margin is its text.
proof fn lemma_margin(l: Line, indent: nat)
    requires
        l.depth == 0,
    ensures
        line_text(l, indent) == l.text,
{
    assert(indent * 0int == 0) by (nonlinear_arith);
    assert(spaces(0) + l.text =~= l.text);
}

/// A line that does not begin as a schema does stays.
proof fn lemma_other_line(t: Text, d: Entries, text: Text)
    requires
        !starts_with(t, "s:"@),
    ensures
        !begins_with_one(t, orphans(d, text, 0)),
{
    let starts = orphans(d, text, 0);
    reveal_strlit("s:");
    if begins_with_one(t, starts) {
        let j = choose|j: int| 0 <= j < starts.len() && starts_with(t, #[trigger] starts[j]);
        let k = lemma_orphan_of(d, text, 0, j);
        let p = definition_start(d[k].0);
        assert(t.subrange(0, p.len() as int)[0] == t[0]);
        assert(t.subrange(0, p.len() as int)[1] == t[1]);
        assert(p[0] == 's' && p[1] == ':');
        assert(t.subrange(0, 2) =~= "s:"@);
    }
}

/// A line of a value does not begin as a schema does.
proof fn lemma_value_line(l: Line, indent: nat)
    requires
        good_line(l),
        l.depth >= 0,
        indent >= 1,
    ensures
        !starts_with(line_text(l, indent), "s:"@),
{
    let t = line_text(l, indent);
    reveal_strlit("s:");
    if starts_with(t, "s:"@) {
        assert(t.subrange(0, 2)[0] == t[0]);
        if l.depth > 0 {
            assert(indent * l.depth >= 1) by (nonlinear_arith)
                requires
                    indent >= 1,
                    l.depth >= 1,
            ;
            assert(t[0] == ' ');
        } else {
            lemma_margin(l, indent);
        }
    }
}

/// The lines that stay are those of the schemas that are named, and the others.
proof fn lemma_kept_lines(d: Entries, text: Text, w: Seq<Line>, indent: nat, i: int)
    requires
        0 <= i <= d.len(),
        distinct(d),
        definitions_read(d),
        forall|j: int| 0 <= j < w.len() ==> !starts_with(line_text(#[trigger] w[j], indent), "s:"@),
    ensures
        lines_without(
            line_texts(definition_lines("s:"@, d, ',') + w, indent),
            orphans(d, text, 0),
            i,
        ) == line_texts(definition_lines("s:"@, named(d, text, i), ',') + w, indent),
    decreases d.len() - i,
{
    let all = definition_lines("s:"@, d, ',') + w;
    let ts = line_texts(all, indent);
    let starts = orphans(d, text, 0);
    let want = line_texts(definition_lines("s:"@, named(d, text, i), ',') + w, indent);
    if i < d.len() {
        lemma_kept_lines(d, text, w, indent, i + 1);
        let more = line_texts(definition_lines("s:"@, named(d, text, i + 1), ',') + w, indent);
        let c = definition_text(DefType::Schema, d[i]);
        assert(all[i].text == c);
        lemma_margin(all[i], indent);
        assert(ts[i] == c);
        assert(definition_reads(d[i]));
        if refers(text, d[i].0) {
            if begins_with_one(ts[i], starts) {
                let j = choose|j: int| 0 <= j < starts.len() && starts_with(
                    ts[i],
                    #[trigger] starts[j],
                );
                let k = lemma_orphan_of(d, text, 0, j);
                assert(definition_reads(d[k]));
                lemma_own_start(d[i], d[k].0);
                if k != i {
                    assert(d[k].0 != d[i].0);
                }
            }
            assert(want =~= seq![c] + more) by {
                let kept = definition_lines("s:"@, named(d, text, i), ',') + w;
                assert(kept[0].text == c);
                lemma_margin(kept[0], indent);
            }
        } else {
            lemma_orphan(d, text, 0, i);
            let j = choose|j: int| 0 <= j < starts.len() && starts[j] == definition_start(d[i].0);
            reveal_strlit(" ");
            assert(c.subrange(0, definition_start(d[i].0).len() as int) =~= definition_start(
                d[i].0,
            ));
            assert(starts_with(ts[i], starts[j]));
            assert(named(d, text, i) =~= named(d, text, i + 1));
            assert(Seq::<Text>::empty() + more =~= more);
        }
    } else {
        assert forall|j: int| i <= j < ts.len() implies !begins_with_one(#[trigger] ts[j], starts) by {
            assert(all[j] == w[j - i]);
            assert(!starts_with(line_text(w[j - i], indent), "s:"@));
            lemma_other_line(ts[j], d, text);
        }
        lemma_lines_stay(ts, starts, i);
        assert(ts.subrange(i, ts.len() as int) =~= want);
    }
}

/// Lines that are joined are laid out.
proof fn lemma_joined_layout(l: Seq<Line>, indent: nat, i: int)
    requires
        0 <= i < l.len(),
    ensures
        joined(line_texts(l, indent), seq!['\n'], i) == (if i > 0 {
            seq!['\n']
        } else {
            seq![]
        }) + layout(l.subrange(i, l.len() as int), indent),
    decreases l.len() - i,
{
    let ts = line_texts(l, indent);
    let nl: Text = seq!['\n'];
    let here = l.subrange(i, l.len() as int);
    let lead = if i > 0 {
        nl
    } else {
        seq![]
    };
    assert(here[0] == l[i]);
    if i + 1 < l.len() {
        lemma_joined_layout(l, indent, i + 1);
        lemma_layout_first(here, indent);
        assert(here.drop_first() =~= l.subrange(i + 1, l.len() as int));
        assert(joined(ts, nl, i) =~= lead + layout(here, indent));
    } else {
        assert(joined(ts, nl, i + 1) =~= seq![]);
        assert(joined(ts, nl, i) =~= lead + layout(here, indent));
    }
}

/// What stands in a part of a text stands in the text.
proof fn lemma_holds_in(a: Text, t: Text, b: Text, p: Text)
    requires
        holds_text(t, p),
    ensures
        holds_text(a + t + b, p),
{
    let i = choose|i: int| 0 <= i <= t.len() - p.len() && #[trigger] t.subrange(i, i + p.len()) == p;
    let s = a + t + b;
    let j = a.len() + i;
    assert(s.subrange(j, j + p.len()) =~= t.subrange(i, i + p.len()));
}

/// What stands in a line stands in the layout of the lines.
proof fn lemma_layout_holds(l: Seq<Line>, indent: nat, i: int, p: Text)
    requires
        0 <= i < l.len(),
        holds_text(l[i].text, p),
    ensures
        holds_text(layout(l, indent), p),
    decreases l.len(),
{
    let none: Text = seq![];
    let last = line_text(l.last(), indent);
    if i == l.len() - 1 {
        let sp = spaces(indent * l.last().depth);
        lemma_holds_in(sp, l[i].text, none, p);
        assert(sp + l[i].text + none =~= last);
        if l.len() > 1 {
            let before = layout(l.drop_last(), indent) + seq!['\n'];
            lemma_holds_in(before, last, none, p);
            assert(before + last + none =~= layout(l, indent));
        }
    } else {
        lemma_layout_holds(l.drop_last(), indent, i, p);
        lemma_holds_in(none, layout(l.drop_last(), indent), seq!['\n'] + last, p);
        assert(none + layout(l.drop_last(), indent) + (seq!['\n'] + last) =~= layout(l, indent));
    }
}

/// A steady line leads to a line at the margin.
proof fn lemma_steady_leads(l: Line, next: Line)
    requires
        is_steady(l),
        next.depth == 0,
    ensures
        leads_to(l, next),
{
    reveal(falls_to);
    assert(semis_before(expected_depth(l.text, l.depth), next.depth) == 1);
}

/// Steady lines before lines that begin flat begin flat.
proof fn lemma_steady_flat(g: Seq<Line>, w: Seq<Line>)
    requires
        forall|i: int| 0 <= i < g.len() ==> (#[trigger] g[i]).depth == 0,
        begins_flat(w),
        w.len() > 0,
    ensures
        begins_flat(g + w),
{
    let l = g + w;
    if g.len() > 0 {
        assert(l[0] == g[0]);
    } else {
        assert(l[0] == w[0]);
    }
    assert forall|i: int|
        0 <= i < l.len() && flat_before(l, i) && (#[trigger] l[i]).depth > 0 implies l[i].depth
        == 1 by {
        if i < g.len() {
            assert(l[i] == g[i]);
        } else {
            let j = i - g.len();
            assert(l[i] == w[j]);
            assert forall|q: int| 0 <= q < j implies (#[trigger] w[q]).depth == 0 by {
                assert(l[q + g.len()] == w[q]);
            }
            assert(flat_before(w, j));
        }
    }
}

/// Steady lines lead to what stands at the margin behind them.
proof fn lemma_steady_chain(g: Seq<Line>, w: Seq<Line>, i: int)
    requires
        forall|j: int| 0 <= j < g.len() ==> is_steady(#[trigger] g[j]),
        w.len() > 0,
        w[0].depth == 0,
        0 <= i < g.len(),
    ensures
        leads_to((g + w)[i], (g + w)[i + 1]),
{
    let l = g + w;
    assert(l[i] == g[i]);
    if i + 1 < g.len() {
        assert(l[i + 1] == g[i + 1]);
        assert(is_steady(g[i + 1]));
    } else {
        assert(l[i + 1] == w[0]);
    }
    assert(is_steady(g[i]));
    lemma_steady_leads(l[i], l[i + 1]);
}

/// A line of two lists of lines leads to the next, where it does so in them.
proof fn lemma_chain(g: Seq<Line>, w: Seq<Line>, i: int)
    requires
        forall|j: int| 0 <= j < g.len() ==> is_steady(#[trigger] g[j]),
        w.len() > 0,
        w[0].depth == 0,
        0 <= i < (g + w).len() - 1,
        i >= g.len() ==> leads_to(w[i - g.len()], w[i - g.len() + 1]),
    ensures
        leads_to((g + w)[i], (g + w)[i + 1]),
{
    if i < g.len() {
        lemma_steady_chain(g, w, i);
    } else {
        let j = i - g.len();
        assert((g + w)[i] == w[j]);
        assert((g + w)[i + 1] == w[j + 1]);
    }
}

/// Steady lines and segments behind them are segments.
proof fn lemma_steady_segments(g: Seq<Line>, w: Seq<Line>)
    requires
        forall|i: int| 0 <= i < g.len() ==> is_steady(#[trigger] g[i]),
        forall|i: int| 0 <= i < w.len() ==> is_segment((#[trigger] w[i]).text),
    ensures
        forall|i: int| 0 <= i < (g + w).len() ==> is_segment((#[trigger] (g + w)[i]).text),
        forall|i: int| 0 <= i < g.len() ==> (#[trigger] g[i]).depth == 0,
{
    let l = g + w;
    assert forall|i: int| 0 <= i < l.len() implies is_segment((#[trigger] l[i]).text) by {
        if i < g.len() {
            assert(is_steady(g[i]));
        } else {
            assert(l[i] == w[i - g.len()]);
        }
    }
    assert forall|i: int| 0 <= i < g.len() implies (#[trigger] g[i]).depth == 0 by {
        assert(is_steady(g[i]));
    }
}

/// Steady lines and lines that nest behind them nest.
proof fn lemma_steady_nest(g: Seq<Line>, w: Seq<Line>)
    requires
        forall|i: int| 0 <= i < g.len() ==> is_steady(#[trigger] g[i]),
        w.len() > 0,
        nests(w),
    ensures
        nests(g + w),
{
    let l = g + w;
    lemma_steady_segments(g, w);
    lemma_steady_flat(g, w);
    assert forall|i: int| 0 <= i < l.len() - 1 implies leads_to(#[trigger] l[i], l[i + 1]) by {
        let j = i - g.len();
        if j >= 0 {
            assert(leads_to(w[j], w[j + 1]));
        }
        lemma_chain(g, w, i);
    }
}

/// Whether lines are steady, with empty lines between them or behind them.
pub open spec fn is_header(l: Seq<Line>) -> bool {
    &&& forall|i: int| 0 <= i < l.len() ==> is_gap(#[trigger] l[i]) || is_steady(l[i])
    &&& l.len() > 0 ==> is_steady(l[0])
}

/// Headers one behind the other.
proof fn lemma_next_group(a: Seq<Line>, b: Seq<Line>)
    requires
        is_header(a),
        is_header(b),
    ensures
        is_header(next_group(a, b)),
        spoken(next_group(a, b), 0) == spoken(a, 0) + spoken(b, 0),
{
    let l = next_group(a, b);
    let gap: Seq<Line> = seq![Line { depth: 0, text: seq![] }];
    lemma_spoken_concat(a, b, 0);
    if a.len() > 0 && b.len() > 0 {
        lemma_spoken_concat(a + gap, b, 0);
        lemma_spoken_concat(a, gap, 0);
        reveal_with_fuel(spoken, 2);
        assert(spoken(gap, 0) =~= seq![]);
        assert(spoken(a, 0) + spoken(gap, 0) =~= spoken(a, 0));
        assert forall|i: int| 0 <= i < l.len() implies is_gap(#[trigger] l[i]) || is_steady(l[i]) by {
            if i < a.len() {
                assert(l[i] == a[i]);
            } else if i > a.len() {
                assert(l[i] == b[i - a.len() - 1]);
            }
        }
    } else if a.len() > 0 {
        assert(b =~= seq![]);
        assert(l =~= a);
    } else {
        assert(a =~= seq![]);
        assert(l =~= b);
        assert(spoken(a, 0) + spoken(b, 0) =~= spoken(b, 0));
    }
    assert(l.len() > 0 ==> is_steady(l[0]));
}

/// The lines of definitions of one kind are a header, and all spoken.
proof fn lemma_group_header(s: Stores, d: DefType)
    requires
        definitions_fit(store(s, d)),
    ensures
        is_header(group(s, d)),
        spoken(group(s, d), 0) == group(s, d),
{
    let g = group(s, d);
    let none: Seq<Line> = seq![];
    lemma_group(s, d);
    assert forall|i: int| 0 <= i < g.len() implies is_segment((#[trigger] g[i]).text) by {
        assert(is_steady(g[i]));
    }
    lemma_spoken(none, g, 0);
    assert(none + g =~= g);
    assert(g.subrange(0, g.len() as int) =~= g);
}

/// The lines of the definitions that are no schemas.
pub open spec fn other_lines(s: Stores) -> Seq<Line> {
    next_group(group(s, DefType::Response), group(s, DefType::Security))
}

/// The lines of all definitions are those of the schemas and the others.
proof fn lemma_two_groups(s: Stores)
    ensures
        all_definition_lines(s, ',') == next_group(group(s, DefType::Schema), other_lines(s)),
{
    let a = group(s, DefType::Schema);
    let b = group(s, DefType::Response);
    let c = group(s, DefType::Security);
    assert(next_group(next_group(a, b), c) =~= next_group(a, next_group(b, c)));
}

/// The lines of all definitions are a header.
proof fn lemma_definition_header(s: Stores)
    requires
        all_read(s),
    ensures
        is_header(other_lines(s)),
        is_header(all_definition_lines(s, ',')),
        spoken(all_definition_lines(s, ','), 0) == group(s, DefType::Schema) + group(
            s,
            DefType::Response,
        ) + group(s, DefType::Security),
{
    let a = group(s, DefType::Schema);
    let b = group(s, DefType::Response);
    let c = group(s, DefType::Security);
    assert forall|i: int| 0 <= i < s.schemas.len() implies definition_fits(#[trigger] s.schemas[i]) by {
        assert(definition_reads(s.schemas[i]));
    }
    lemma_group_header(s, DefType::Schema);
    lemma_group_header(s, DefType::Response);
    lemma_group_header(s, DefType::Security);
    lemma_next_group(b, c);
    lemma_next_group(a, other_lines(s));
    lemma_two_groups(s);
    assert(a + (b + c) =~= a + b + c);
}

/// A header and the lines of a value behind it can be laid out.
proof fn lemma_header_fits(h: Seq<Line>, w: Seq<Line>)
    requires
        is_header(h),
        is_document(w),
    ensures
        all_lines(h + w),
        begins_flat(h + w),
        !is_gap((h + w)[0]),
        forall|i: int| 0 <= i < (h + w).len() ==> is_gap(#[trigger] (h + w)[i]) || (h
            + w)[i].text[0] != '#',
        spoken(h + w, 0) == spoken(h, 0) + w,
{
    let l = h + w;
    let none: Seq<Line> = seq![];
    lemma_block_nests(w);
    assert forall|i: int| 0 <= i < l.len() implies (fits(#[trigger] l[i]) && l[i].text[0] != '#')
        || is_gap(l[i]) by {
        if i < h.len() {
            assert(l[i] == h[i]);
        } else {
            assert(l[i] == w[i - h.len()]);
            assert(good_line(w[i - h.len()]));
        }
    }
    assert(l.last() == w.last());
    assert(good_line(w[w.len() - 1]));
    if h.len() == 0 {
        assert(l[0] == w[0]);
        assert(good_line(w[0]));
    }
    assert forall|i: int| 0 <= i < h.len() implies (#[trigger] h[i]).depth == 0 by {
        assert(is_gap(h[i]) || is_steady(h[i]));
    }
    lemma_steady_flat(h, w);
    lemma_spoken_concat(h, w, 0);
    assert forall|i: int| 0 <= i < w.len() implies is_segment((#[trigger] w[i]).text) by {
        assert(good_line(w[i]));
    }
    lemma_spoken(none, w, 0);
    assert(none + w =~= w);
    assert(w.subrange(0, w.len() as int) =~= w);
    if h.len() == 0 {
        assert(l =~= w);
        assert(spoken(h, 0) + w =~= w);
    }
}

/// An empty line, where `gap` holds.
pub open spec fn gap_if(gap: bool) -> Seq<Line> {
    if gap {
        seq![Line { depth: 0, text: seq![] }]
    } else {
        seq![]
    }
}

/// The lines behind the schemas do not begin as schemas do.
proof fn lemma_no_schemas(s: Stores, w: Seq<Line>, indent: nat, gap: bool)
    requires
        all_read(s),
        is_document(w),
        indent >= 1,
    ensures
        ({
            let l = gap_if(gap) + other_lines(s) + w;
            forall|j: int| 0 <= j < l.len() ==> !starts_with(line_text(#[trigger] l[j], indent), "s:"@)
        }),
{
    let blank = gap_if(gap);
    let b = group(s, DefType::Response);
    let c = group(s, DefType::Security);
    let o = other_lines(s);
    let l = blank + o + w;
    reveal_strlit("s:");
    lemma_group(s, DefType::Response);
    lemma_group(s, DefType::Security);
    assert forall|j: int| 0 <= j < o.len() implies (#[trigger] o[j]).depth == 0 && !starts_with(
        o[j].text,
        "s:"@,
    ) by {
        if j < b.len() {
            assert(o[j] == b[j]);
            assert(is_steady(b[j]));
        } else if b.len() > 0 && j > b.len() {
            assert(o[j] == c[j - b.len() - 1]);
            assert(is_steady(c[j - b.len() - 1]));
        } else if b.len() == 0 {
            assert(o[j] == c[j]);
            assert(is_steady(c[j]));
        }
    }
    assert forall|j: int| 0 <= j < l.len() implies !starts_with(
        line_text(#[trigger] l[j], indent),
        "s:"@,
    ) by {
        if j < blank.len() {
            lemma_margin(l[j], indent);
        } else if j < blank.len() + o.len() {
            assert(l[j] == o[j - blank.len()]);
            lemma_margin(l[j], indent);
        } else {
            assert(l[j] == w[j - blank.len() - o.len()]);
            assert(good_line(l[j]));
            lemma_value_line(l[j], indent);
        }
    }
}

/// Taking out the schemas that nothing refers to leaves the layout of the other
/// definitions and the value.
proof fn lemma_pruned(s: Stores, w: Seq<Line>, indent: nat)
    requires
        all_distinct(s),
        all_read(s),
        is_document(w),
        indent >= 1,
    ensures
        ({
            let text = layout(all_definition_lines(s, ',') + w, indent);
            let kept = Stores { schemas: named(s.schemas, text, 0), ..s };
            pruned(s.schemas, text) == layout(all_definition_lines(kept, ',') + w, indent)
        }),
{
    let d = s.schemas;
    let h = all_definition_lines(s, ',');
    let text = layout(h + w, indent);
    let starts = orphans(d, text, 0);
    let kept = Stores { schemas: named(d, text, 0), ..s };
    if starts.len() == 0 {
        lemma_all_named(d, text, 0);
        assert(d.subrange(0, d.len() as int) =~= d);
    } else {
        lemma_orphans_out(s, w, indent);
        lemma_named_reads(d, text);
        lemma_left(kept, w, indent);
    }
}

/// The lines that are left without the schemas that nothing refers to.
proof fn lemma_orphans_out(s: Stores, w: Seq<Line>, indent: nat)
    requires
        all_distinct(s),
        all_read(s),
        is_document(w),
        indent >= 1,
        s.schemas.len() > 0,
    ensures
        ({
            let text = layout(all_definition_lines(s, ',') + w, indent);
            let kept = Stores { schemas: named(s.schemas, text, 0), ..s };
            let starts = orphans(s.schemas, text, 0);
            let o = other_lines(s);
            joined(lines_without(lines(text), starts, 0), seq!['\n'], 0) == layout(
                group(kept, DefType::Schema) + (gap_if(o.len() > 0) + o + w),
                indent,
            )
        }),
{
    let d = s.schemas;
    let h = all_definition_lines(s, ',');
    let text = layout(h + w, indent);
    let starts = orphans(d, text, 0);
    let kept = Stores { schemas: named(d, text, 0), ..s };
    let a = group(s, DefType::Schema);
    let o = other_lines(s);
    let rest = gap_if(o.len() > 0) + o + w;
    let left = group(kept, DefType::Schema) + rest;
    assert(lines(text) == line_texts(a + rest, indent)) by {
        lemma_definition_header(s);
        lemma_header_fits(h, w);
        lemma_lines_of_layout(h + w, indent);
        lemma_two_groups(s);
        assert(h + w =~= a + rest);
    }
    lemma_no_schemas(s, w, indent, o.len() > 0);
    lemma_kept_lines(d, text, rest, indent, 0);
    assert(lines_without(lines(text), starts, 0) == line_texts(left, indent));
    lemma_joined_layout(left, indent, 0);
    assert(left.subrange(0, left.len() as int) =~= left);
    let t = layout(left, indent);
    assert(Seq::<char>::empty() + t =~= t);
}

/// What is left once schemas have been taken out is the layout of the other
/// definitions and the value, but for an empty line that it may begin with.
proof fn lemma_left(s: Stores, w: Seq<Line>, indent: nat)
    requires
        all_read(s),
        is_document(w),
    ensures
        ({
            let o = other_lines(s);
            let t = layout(
                group(s, DefType::Schema) + (gap_if(o.len() > 0) + o + w),
                indent,
            );
            without_leading_newlines(t) == layout(all_definition_lines(s, ',') + w, indent)
        }),
{
    let a = group(s, DefType::Schema);
    let o = other_lines(s);
    let left = a + (gap_if(o.len() > 0) + o + w);
    let t = layout(left, indent);
    let h = all_definition_lines(s, ',');
    let want = layout(h + w, indent);
    lemma_definition_header(s);
    lemma_two_groups(s);
    lemma_no_first_newline(h, w, indent);
    if a.len() > 0 || o.len() == 0 {
        assert(left =~= h + w);
    } else {
        assert(a =~= seq![]);
        assert(h =~= o);
        assert(left.drop_first() =~= h + w);
        lemma_layout_first(left, indent);
        assert(is_gap(left[0]));
        lemma_gap(left[0], indent);
        assert(t =~= seq!['\n'] + want);
        assert(t.subrange(1, t.len() as int) =~= want);
        reveal_with_fuel(without_leading_newlines, 2);
    }
}

/// The layout of a header and a value begins with no newline.
proof fn lemma_no_first_newline(h: Seq<Line>, w: Seq<Line>, indent: nat)
    requires
        is_header(h),
        is_document(w),
    ensures
        layout(h + w, indent).len() > 0,
        layout(h + w, indent)[0] != '\n',
{
    let l = h + w;
    let s = layout(l, indent);
    let c = l[0].text;
    if h.len() > 0 {
        assert(l[0] == h[0]);
    } else {
        assert(l[0] == w[0]);
        assert(good_line(w[0]));
    }
    lemma_margin(l[0], indent);
    if l.len() > 1 {
        lemma_layout_first(l, indent);
        assert(s[0] == c[0]);
    } else {
        assert(s == c);
    }
    assert(!c.contains('\n'));
    assert(c[0] != '\n');
}

/// Without orphans every definition is named.
proof fn lemma_all_named(d: Entries, text: Text, i: int)
    requires
        0 <= i <= d.len(),
        orphans(d, text, i).len() == 0,
    ensures
        named(d, text, i) == d.subrange(i, d.len() as int),
    decreases d.len() - i,
{
    if i < d.len() {
        lemma_all_named(d, text, i + 1);
        assert(d.subrange(i, d.len() as int) =~= seq![d[i]] + d.subrange(i + 1, d.len() as int));
    }
}

/// The definitions that are named read back.
proof fn lemma_named_reads(d: Entries, text: Text)
    requires
        distinct(d),
        definitions_read(d),
    ensures
        distinct(named(d, text, 0)),
        definitions_read(named(d, text, 0)),
{
    let m = named(d, text, 0);
    lemma_named(d, text, 0);
    assert forall|i: int| 0 <= i < m.len() implies definition_reads(#[trigger] m[i]) by {
        assert(is_from(d, 0, m[i]));
        let q = choose|q: int| 0 <= q < d.len() && d[q] == m[i];
        assert(definition_reads(d[q]));
    }
}

// ---------------------------------------------------------------------------
// Documents with definitions

/// The style in which an encoder writes a value: with the definitions that it
/// has, and with those that it makes of repeated parts.
pub open spec fn style_for(m: Manner, v: Val) -> Style {
    Style { delimiter: m.delimiter, schemas: stores_for(m, v).schemas }
}

/// Repeated parts are defined under names of their own, and only as schemas.
pub proof fn lemma_repeated(s: Stores, t: Tallies, i: int)
    requires
        0 <= i <= t.len(),
        distinct(s.schemas),
    ensures
        distinct(with_repeated(s, t, i).schemas),
        with_repeated(s, t, i).responses == s.responses,
        with_repeated(s, t, i).security == s.security,
    decreases t.len() - i,
{
    if i < t.len() {
        if t[i].1.count >= 2 {
            let name = schema_name(t[i].1.path);
            lemma_put_distinct(s.schemas, name, t[i].1.data);
            lemma_repeated(defined(s, DefType::Schema, name, t[i].1.data), t, i + 1);
        } else {
            lemma_repeated(s, t, i + 1);
        }
    }
}

/// The definitions that a document holds: where an encoder defines repeated
/// parts, those schemas stay that are referred to.
pub open spec fn definitions_in(m: Manner, v: Val) -> Stores {
    let s = stores_for(m, v);
    if m.auto {
        Stores {
            schemas: named(s.schemas, whole_text(s, m.delimiter, m.indent, v), 0),
            ..s
        }
    } else {
        s
    }
}

/// A document with definitions is the layout of their lines and of those of the
/// value.
proof fn lemma_encoded_lines(m: Manner, v: Val)
    requires
        m.delimiter == ',',
        m.indent >= 1,
        all_distinct(m.stores),
        all_read(stores_for(m, v)),
        reads_back(style_for(m, v), v),
    ensures
        usable(style_for(m, v)),
        all_distinct(stores_for(m, v)),
        is_document(written_value(style_for(m, v), v)),
        encoded(m, v, seq![]) == layout(
            all_definition_lines(definitions_in(m, v), ',') + written_value(style_for(m, v), v),
            m.indent,
        ),
{
    let s = stores_for(m, v);
    let e = style_for(m, v);
    let w = written_value(e, v);
    lemma_repeated(m.stores, collected(v, seq![], seq![], 2), 0);
    let text = whole_text(s, ',', m.indent, v);
    assert(Seq::<char>::empty() + text =~= text);
    lemma_value_block(e, v);
    if m.auto {
        lemma_pruned(s, w, m.indent);
    }
}

/// The references in the lines of a value are resolved by the definitions that
/// the document holds.
proof fn lemma_resolved(m: Manner, v: Val)
    requires
        m.delimiter == ',',
        all_distinct(definitions_in(m, v)),
        all_read(definitions_in(m, v)),
    ensures
        resolves(
            style_for(m, v),
            definitions_in(m, v),
            seq![],
            written_value(style_for(m, v), v),
        ),
{
    let e = style_for(m, v);
    let d = e.schemas;
    let w = written_value(e, v);
    let h = all_definition_lines(stores_for(m, v), ',');
    let text = layout(h + w, m.indent);
    let s = definitions_in(m, v);
    let open = Seq::<Text>::empty();
    assert forall|i: int, name: Text|
        0 <= i < w.len() && has_key(d, name) && #[trigger] refers(
            w[i].text,
            name,
        ) implies inline_value(s, open, reference_text(name)) == (entry(d, name)->0, open) by {
        lemma_key_index(d, name);
        let k = key_index(d, name);
        assert((h + w)[h.len() + i] == w[i]);
        lemma_layout_holds(h + w, m.indent, h.len() + i, reference_text(name));
        assert(refers(text, d[k].0));
        if m.auto {
            let j = lemma_named_has(d, text, 0, k);
            lemma_reference_reads(s, s.schemas, j);
        } else {
            lemma_reference_reads(s, s.schemas, k);
        }
    }
}

/// No object in a value without references has a key twice.
proof fn lemma_plain_keyed(v: Val)
    requires
        is_plain(v),
    ensures
        well_keyed(v),
    decreases v, 0int,
{
    match v {
        Val::Array(a) => {
            assert(decreases_to!(v => a));
            lemma_plain_items(a, 0);
        },
        Val::Object(o) => {
            assert(decreases_to!(v => o));
            lemma_plain_entries(o, 0);
        },
        _ => {},
    }
}

/// No object in items without references has a key twice.
proof fn lemma_plain_items(a: Seq<Val>, i: int)
    requires
        0 <= i <= a.len(),
        items_plain(a, i),
    ensures
        items_well_keyed(a, i),
    decreases a, a.len() - i,
{
    if i < a.len() {
        lemma_item_smaller(a, i);
        assert(is_plain(a[i]));
        lemma_plain_keyed(a[i]);
        lemma_plain_items(a, i + 1);
    }
}

/// No object in entries without references has a key twice.
proof fn lemma_plain_entries(o: Entries, i: int)
    requires
        0 <= i <= o.len(),
        entries_plain(o, i),
    ensures
        entries_well_keyed(o, i),
    decreases o, o.len() - i,
{
    if i < o.len() {
        lemma_entry_smaller(o, i);
        assert(is_plain(o[i].1));
        lemma_plain_keyed(o[i].1);
        lemma_plain_entries(o, i + 1);
    }
}

/// What a document with definitions says.
proof fn lemma_said(m: Manner, v: Val)
    requires
        m.delimiter == ',',
        usable(style_for(m, v)),
        all_distinct(definitions_in(m, v)),
        all_read(definitions_in(m, v)),
        well_keyed(v),
        reads_back(style_for(m, v), v),
        is_document(written_value(style_for(m, v), v)),
    ensures
        said(
            spoken(all_definition_lines(definitions_in(m, v), ','), 0) + written_value(
                style_for(m, v),
                v,
            ),
        ) == Ok::<Val, Text>(read_back(style_for(m, v), v)),
{
    let e = style_for(m, v);
    let w = written_value(e, v);
    let s = definitions_in(m, v);
    let then = Known { stores: s, ..new_setting().known };
    lemma_definition_header(s);
    lemma_all_taken(s, w);
    assert forall|i: int| 0 <= i < w.len() implies good_line(#[trigger] w[i]) by {}
    lemma_taken(then, w, seq![]);
    assert(Seq::<Line>::empty() + w =~= w);
    lemma_resolved(m, v);
    lemma_document_reads(e, then.stores, then.open, v);
}

/// The definitions that a document holds read back.
proof fn lemma_definitions_in(m: Manner, v: Val)
    requires
        all_distinct(stores_for(m, v)),
        all_read(stores_for(m, v)),
    ensures
        all_distinct(definitions_in(m, v)),
        all_read(definitions_in(m, v)),
{
    let s = stores_for(m, v);
    if m.auto {
        lemma_named_reads(s.schemas, whole_text(s, m.delimiter, m.indent, v));
    }
}

/// An encoder that defines repeated parts leaves the schemas out that nothing
/// refers to: the document is laid out from the lines of the other definitions
/// and those of the value.
pub proof fn only_definitions_in_use_stay(m: Manner, v: Val)
    requires
        m.auto,
        m.delimiter == ',',
        m.indent >= 1,
        all_distinct(m.stores),
        all_read(stores_for(m, v)),
        reads_back(style_for(m, v), v),
    ensures
        ({
            let s = stores_for(m, v);
            let whole = whole_text(s, ',', m.indent, v);
            let kept = Stores { schemas: named(s.schemas, whole, 0), ..s };
            encoded(m, v, seq![]) == layout(
                all_definition_lines(kept, ',') + written_value(style_for(m, v), v),
                m.indent,
            )
        }),
{
    lemma_encoded_lines(m, v);
}

/// A decoder reads back what an encoder wrote with definitions: those that it
/// was given, and those that it made of the parts that occur more than once. The
/// document, and the same on one line, hold a value that equals the one that was
/// written, with definitions in the place of the objects that equal them.
pub proof fn decoding_undoes_deduplication(m: Manner, v: Val)
    requires
        m.delimiter == ',',
        m.indent >= 1,
        all_distinct(m.stores),
        well_keyed(v),
        all_read(stores_for(m, v)),
        reads_back(style_for(m, v), v),
    ensures
        decode_text(encoded(m, v, seq![])) == Ok::<Val, Text>(read_back(style_for(m, v), v)),
        decode_text(minified(encoded(m, v, seq![]))) == Ok::<Val, Text>(
            read_back(style_for(m, v), v),
        ),
        val_eq(read_back(style_for(m, v), v), v),
{
    let e = style_for(m, v);
    let w = written_value(e, v);
    let s = definitions_in(m, v);
    let h = all_definition_lines(s, ',');
    let text = encoded(m, v, seq![]);
    lemma_encoded_lines(m, v);
    lemma_definitions_in(m, v);
    lemma_definition_header(s);
    lemma_header_fits(h, w);
    lemma_header_nests(s, w);
    lemma_spaced_layout(h + w, m.indent);
    lemma_said(m, v);
    lemma_decode_laid_out(text);
    minifying_keeps_the_value(text);
    assert forall|i: int| 0 <= i < e.schemas.len() implies well_keyed((#[trigger] e.schemas[i]).1) by {
        assert(definition_reads(e.schemas[i]));
        lemma_plain_keyed(e.schemas[i].1);
    }
    lemma_value_eq(e, v);
}

/// The lines of definitions and of a value nest.
proof fn lemma_header_nests(s: Stores, w: Seq<Line>)
    requires
        all_read(s),
        is_document(w),
    ensures
        nests(spoken(all_definition_lines(s, ','), 0) + w),
{
    let a = group(s, DefType::Schema);
    let b = group(s, DefType::Response);
    let c = group(s, DefType::Security);
    let g = a + b + c;
    lemma_definition_header(s);
    assert forall|i: int| 0 <= i < s.schemas.len() implies definition_fits(#[trigger] s.schemas[i]) by {
        assert(definition_reads(s.schemas[i]));
    }
    lemma_group(s, DefType::Schema);
    lemma_group(s, DefType::Response);
    lemma_group(s, DefType::Security);
    assert forall|i: int| 0 <= i < g.len() implies is_steady(#[trigger] g[i]) by {
        if i < a.len() {
            assert(g[i] == a[i]);
        } else if i < a.len() + b.len() {
            assert(g[i] == b[i - a.len()]);
        } else {
            assert(g[i] == c[i - a.len() - b.len()]);
        }
    }
    lemma_block_nests(w);
    lemma_steady_nest(g, w);
}

} // verus!
