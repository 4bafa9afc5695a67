//! What an encoder writes, a tape holds.

use vstd::prelude::*;
use crate::decoder::{
    decode_text, depth_at, good, is_inline_item, is_item, is_minified, item_base, item_text,
    new_setting, Out,
};
use crate::encoder::{
    all_simple, encode_text, is_plain_key, is_safe, joined, key_text, layout, line_text,
    primitive_text, primitive_texts, quoted, row_lines, separator, table_fields, unsafe_in_key,
    written_array, written_entries, written_entry, written_first, written_item, written_items,
    written_object_item, written_rest, written_value,
};
use crate::laying::{
    fits, lemma_detected, lemma_fit, lemma_layout_first, lemma_line_text, lemma_lines_of_layout,
    line_texts,
};
use crate::lines::{array_header, depth_of, detected_indent, Header, Known, Line};
use crate::readback::{
    gap, is_token, is_trim, is_unit, key_reads, lemma_all_pieces, lemma_cell_end,
    lemma_decimal_plain, lemma_header_colon, lemma_integer_reads, lemma_key_line, lemma_key_text,
    lemma_no_colon, lemma_place_behind, lemma_place_outside, lemma_primitive_reads, lemma_quoted,
    lemma_safe, lemma_token_closed, lemma_token_place, lemma_token_unit, lemma_trim_of_trim,
    place_at, raw_key, raw_keys, token_reads,
};
use crate::roundtrip::{
    array_reads, body_lines, decoding_undoes_encoding, entries_read, entry_reads, first_reads,
    flat_text, good_line, head_text, heads, in_field_order, item_reads, items_read,
    lemma_array_parts, lemma_block_nests, lemma_body_first, lemma_dash_head, lemma_empty_no_colon,
    lemma_entry_first, lemma_first_array, lemma_first_entry, lemma_first_object, lemma_first_text,
    lemma_flat_text, lemma_head, lemma_item_first, lemma_item_text, lemma_listed,
    lemma_no_reference, lemma_not_braces, lemma_plain_style, lemma_read_entries, lemma_read_items,
    lemma_row_lines, lemma_row_values, lemma_simple_items, lemma_value_block, plain_style,
    read_back, read_entries, read_entry, read_item, read_items, reads_back, row_values, table_reads,
    table_rows,
};
use crate::scan::{
    brace_content, brace_span, bracket_close, cell_end, escape, has_colon, open_to, outside, pieces,
};
use crate::schema_registry::Stores;
use crate::tape::{
    cells, fields_or_token, flat, flat_entries, flat_items, kept, kept_line, plain_mark, prescanned,
    raw_key_before, raw_leading_key, root_array, shorter, tape_array, tape_delimited, tape_document,
    tape_expanded, tape_field, tape_inline, tape_item_head, tape_list_item, tape_more, tape_object,
    tape_pieces, tape_primitive, tape_root, tape_row, tape_step, tape_table, Mark, Run,
};
use crate::text::{lemma_find_at, lemma_find_from, starts_with, trim, Text};
use crate::tokens::is_reference;
use crate::value::{is_simple, lemma_entry_smaller, lemma_item_smaller, well_keyed, Entries, Val};

verus! {

// ---------------------------------------------------------------------------
// Nodes as they are written

/// A string as it stands in a document, without the quotes around it.
pub open spec fn raw_string(s: Text) -> Text {
    if is_safe(s, ',') {
        s
    } else {
        escape(s)
    }
}

/// A node with its text as it stands in a document.
pub open spec fn raw_mark(m: Mark) -> Mark {
    match m {
        Mark::Str(s) => Mark::Str(raw_string(s)),
        Mark::Key(k) => Mark::Key(raw_key(k)),
        _ => m,
    }
}

/// Nodes with their texts as they stand in a document.
pub open spec fn raw_marks(s: Seq<Mark>) -> Seq<Mark> {
    Seq::new(s.len(), |i: int| raw_mark(s[i]))
}

/// The nodes of a value with their texts as they stand in a document.
pub open spec fn nodes(v: Val) -> Seq<Mark> {
    raw_marks(flat(v))
}

/// The nodes of the items from `i` on.
pub open spec fn item_nodes(a: Seq<Val>, i: int) -> Seq<Mark> {
    raw_marks(flat_items(a, i))
}

/// The nodes of the entries from `i` on.
pub open spec fn entry_nodes(o: Entries, i: int) -> Seq<Mark> {
    raw_marks(flat_entries(o, i))
}

/// The nodes of the items from `i` on are those of the first and of the others.
proof fn lemma_item_nodes(a: Seq<Val>, i: int)
    requires
        0 <= i <= a.len(),
    ensures
        i < a.len() ==> item_nodes(a, i) == nodes(a[i]) + item_nodes(a, i + 1),
        i == a.len() ==> item_nodes(a, i) == Seq::<Mark>::empty(),
        nodes(Val::Array(a)) == seq![Mark::Array(a.len())] + item_nodes(a, 0),
{
    if i < a.len() {
        assert(item_nodes(a, i) =~= nodes(a[i]) + item_nodes(a, i + 1));
    } else {
        assert(item_nodes(a, i) =~= Seq::<Mark>::empty());
    }
    assert(nodes(Val::Array(a)) =~= seq![Mark::Array(a.len())] + item_nodes(a, 0));
}

/// The nodes of the entries from `i` on are those of the first and of the
/// others.
proof fn lemma_entry_nodes(o: Entries, i: int)
    requires
        0 <= i <= o.len(),
    ensures
        i < o.len() ==> entry_nodes(o, i) == (seq![Mark::Key(raw_key(o[i].0))] + nodes(o[i].1))
            + entry_nodes(o, i + 1),
        i == o.len() ==> entry_nodes(o, i) == Seq::<Mark>::empty(),
        nodes(Val::Object(o)) == seq![Mark::Object(o.len())] + entry_nodes(o, 0),
{
    if i < o.len() {
        assert(entry_nodes(o, i) =~= (seq![Mark::Key(raw_key(o[i].0))] + nodes(o[i].1))
            + entry_nodes(o, i + 1));
    } else {
        assert(entry_nodes(o, i) =~= Seq::<Mark>::empty());
    }
    assert(nodes(Val::Object(o)) =~= seq![Mark::Object(o.len())] + entry_nodes(o, 0));
}

// ---------------------------------------------------------------------------
// Tokens

/// A primitive is one node, with a space before its text or without.
proof fn lemma_tape_primitive(s: Stores, open: Seq<Text>, v: Val)
    requires
        is_simple(v),
        token_reads(v),
    ensures
        tape_primitive(s, open, primitive_text(v, ',')) == (nodes(v), open),
        tape_primitive(s, open, seq![' '] + primitive_text(v, ',')) == (nodes(v), open),
        tape_inline(s, open, primitive_text(v, ',')) == (nodes(v), open),
{
    let p = primitive_text(v, ',');
    lemma_primitive_reads(s, open, v);
    lemma_trim_of_trim(p);
    lemma_plain_mark(s, open, v);
    assert(nodes(v) =~= seq![plain_mark(p)]);
}

/// The node of a primitive.
proof fn lemma_plain_mark(s: Stores, open: Seq<Text>, v: Val)
    requires
        is_simple(v),
        token_reads(v),
    ensures
        plain_mark(primitive_text(v, ',')) == raw_mark(flat(v)[0]),
        flat(v).len() == 1,
        !is_reference(primitive_text(v, ',')),
{
    let p = primitive_text(v, ',');
    reveal_strlit("null");
    reveal_strlit("true");
    reveal_strlit("false");
    reveal_strlit("@s:");
    reveal_strlit("@r:");
    reveal_strlit("@sec:");
    lemma_primitive_reads(s, open, v);
    assert(!is_reference(p)) by {
        if starts_with(p, "@s:"@) {
            assert(p.subrange(0, 3)[0] == p[0]);
        }
        if starts_with(p, "@r:"@) {
            assert(p.subrange(0, 3)[0] == p[0]);
        }
        if starts_with(p, "@sec:"@) {
            assert(p.subrange(0, 5)[0] == p[0]);
        }
    }
    match v {
        Val::Integer(n) => {
            lemma_integer_reads(n);
        },
        Val::Float(t) => {
            lemma_decimal_plain(t);
        },
        Val::Str(x) => {
            if is_safe(x, ',') {
                lemma_safe(x);
                assert(!unsafe_in_key(x[0]));
            } else {
                lemma_quoted(x, seq![]);
                assert(quoted(x) + seq![] =~= quoted(x));
            }
        },
        _ => {},
    }
}

/// The nodes of primitives that are joined.
proof fn lemma_tape_pieces(s: Stores, open: Seq<Text>, a: Seq<Val>, i: int, done: Seq<Mark>)
    requires
        0 <= i <= a.len(),
        a.len() > 0,
        forall|j: int| 0 <= j < a.len() ==> is_simple(#[trigger] a[j]) && token_reads(a[j]),
    ensures
        ({
            let x = joined(primitive_texts(a, ','), separator(','), 0);
            &&& pieces(x, ',').len() == a.len()
            &&& tape_pieces(s, open, pieces(x, ','), i, done) == (done + item_nodes(a, i), open)
        }),
    decreases a.len() - i,
{
    let parts = primitive_texts(a, ',');
    assert(separator(',') =~= seq![','] + gap(true));
    assert forall|j: int| 0 <= j < parts.len() implies is_unit(#[trigger] parts[j]) by {
        assert(is_simple(a[j]));
        lemma_primitive_reads(s, open, a[j]);
        lemma_token_unit(parts[j]);
    }
    lemma_all_pieces(parts, true);
    let x = joined(parts, separator(','), 0);
    lemma_item_nodes(a, i);
    if i < a.len() {
        assert(is_simple(a[i]));
        lemma_tape_primitive(s, open, a[i]);
        let piece = pieces(x, ',')[i];
        assert(tape_primitive(s, open, piece) == (nodes(a[i]), open));
        lemma_tape_pieces(s, open, a, i + 1, done + nodes(a[i]));
        assert(done + nodes(a[i]) + item_nodes(a, i + 1) =~= done + item_nodes(a, i));
    } else {
        assert(done + item_nodes(a, i) =~= done);
    }
}

/// The nodes of an array of primitives on one line.
proof fn lemma_tape_delimited(s: Stores, open: Seq<Text>, a: Seq<Val>)
    requires
        a.len() > 0,
        forall|j: int| 0 <= j < a.len() ==> is_simple(#[trigger] a[j]) && token_reads(a[j]),
    ensures
        tape_delimited(s, open, joined(primitive_texts(a, ','), separator(','), 0), ',') == (
            nodes(Val::Array(a)),
            open,
        ),
{
    lemma_tape_pieces(s, open, a, 0, seq![]);
    lemma_item_nodes(a, 0);
    assert(Seq::<Mark>::empty() + item_nodes(a, 0) =~= item_nodes(a, 0));
}

/// The nodes of a value that stands on a line behind a key.
proof fn lemma_tape_flat(s: Stores, open: Seq<Text>, v: Val)
    requires
        is_simple(v) ==> token_reads(v),
        v matches Val::Array(a) ==> a.len() == 0,
        v matches Val::Object(o) ==> o.len() == 0,
    ensures
        tape_inline(s, open, flat_text(v)) == (nodes(v), open),
        is_trim(flat_text(v)),
{
    match v {
        Val::Array(a) => {
            reveal_strlit("[]");
            let t = "[]"@;
            lemma_trim_of_trim(t);
            reveal_with_fuel(bracket_close, 3);
            assert(bracket_close(t, 0, outside()) == Some(1int));
            assert(t.subrange(1, 1) =~= seq![]);
            lemma_item_nodes(a, 0);
            let none = Seq::<Text>::empty();
            assert(tape_pieces(s, open, none, 0, seq![]) == (Seq::<Mark>::empty(), open));
            assert(pieces(t.subrange(1, 1), ',') == none);
        },
        Val::Object(o) => {
            reveal_strlit("{}");
            let t = "{}"@;
            lemma_trim_of_trim(t);
            reveal_with_fuel(brace_span, 3);
            assert(brace_span(t, 0, outside(), 0) == Some((0int, 1int)));
            assert(t.subrange(1, 1) =~= seq![]);
            assert(brace_content(t) == Some(Seq::<char>::empty()));
            lemma_entry_nodes(o, 0);
        },
        _ => {
            lemma_primitive_reads(s, open, v);
            lemma_tape_primitive(s, open, v);
        },
    }
}

/// The key of a line with its escapes.
proof fn lemma_raw_key(k: Text, rest: Text)
    requires
        key_reads(k),
    ensures
        ({
            let t = key_text(k);
            let c = t + seq![':'] + rest;
            &&& raw_key_before(c, t.len() as int) == Ok::<(Text, int), Text>(
                (raw_key(k), t.len() as int + 1),
            )
            &&& raw_leading_key(c) == Ok::<(Text, int), Text>((raw_key(k), t.len() as int + 1))
        }),
{
    let t = key_text(k);
    let post = seq![':'] + rest;
    let c = t + seq![':'] + rest;
    let n = t.len() as int;
    assert(c =~= t + post);
    assert(c[n] == ':');
    lemma_key_text(k);
    assert(c.subrange(0, n) =~= t);
    if is_plain_key(k) {
        assert forall|j: int| 0 <= j < n implies c[j] != ':' && c[j] != '"' by {
            assert(!unsafe_in_key(t[j]));
        }
        lemma_find_at(c, ':', n);
        lemma_trim_of_trim(k);
    } else {
        assert(c[0] == '"');
        lemma_quoted(k, post);
    }
}

// ---------------------------------------------------------------------------
// Rows

/// The first cell of a row, with a gap before it or without.
proof fn lemma_first_cell(lead: Text, p: Text, post: Text)
    requires
        lead == Seq::<char>::empty() || lead == seq![' '],
        is_token(p),
        post.len() > 0 ==> post[0] == ',',
    ensures
        cell_end(lead + p + post, ',', 0, outside()) == lead.len() + p.len(),
{
    let s = lead + p + post;
    let b = p + post;
    assert(s =~= lead + b);
    lemma_place_outside(lead, lead.len() as int);
    lemma_token_place(p, post);
    let k = (lead.len() + p.len()) as int;
    lemma_place_behind(lead, b, p.len() as int);
    assert forall|j: int| 0 <= j < k implies !(s[j] == ',' && open_to(#[trigger] place_at(s, j), ',')) by {
        if j >= lead.len() {
            lemma_place_behind(lead, b, j - lead.len());
            lemma_token_closed(p, post, ',', j - lead.len());
            assert(s[j] == p[j - lead.len()]);
        } else {
            assert(s[j] == lead[j]);
        }
    }
    if k < s.len() {
        assert(s[k] == post[0]);
    }
    lemma_cell_end(s, ',', 0, k);
}

/// The cells of joined tokens are the tokens, with the gaps before them.
proof fn lemma_cells(parts: Seq<Text>, i: int)
    requires
        0 <= i < parts.len(),
        forall|j: int| 0 <= j < parts.len() ==> is_token(#[trigger] parts[j]),
    ensures
        ({
            let lead = if i > 0 {
                gap(true)
            } else {
                seq![]
            };
            cells(lead + parts[i] + joined(parts, separator(','), i + 1), ',') == Seq::new(
                (parts.len() - i) as nat,
                |j: int|
                    if i + j > 0 {
                        gap(true) + parts[i + j]
                    } else {
                        parts[i + j]
                    },
            )
        }),
    decreases parts.len() - i,
{
    let sep = separator(',');
    let lead = if i > 0 {
        gap(true)
    } else {
        seq![]
    };
    let post = joined(parts, sep, i + 1);
    let s = lead + parts[i] + post;
    let want = Seq::new(
        (parts.len() - i) as nat,
        |j: int|
            if i + j > 0 {
                gap(true) + parts[i + j]
            } else {
                parts[i + j]
            },
    );
    assert(is_token(parts[i]));
    if i + 1 < parts.len() {
        let next = gap(true) + parts[i + 1] + joined(parts, sep, i + 2);
        assert(post =~= seq![','] + next);
        lemma_first_cell(lead, parts[i], post);
        let e = (lead.len() + parts[i].len()) as int;
        assert(s.subrange(0, e) =~= lead + parts[i]);
        assert(s.subrange(e + 1, s.len() as int) =~= next);
        lemma_cells(parts, i + 1);
        assert(cells(s, ',') =~= seq![lead + parts[i]] + cells(next, ','));
        assert(lead + parts[i] =~= want[0]);
        assert(cells(s, ',') =~= want);
    } else {
        assert(post =~= seq![]);
        lemma_first_cell(lead, parts[i], post);
        assert(s =~= lead + parts[i]);
        assert(cells(s, ',') =~= seq![s]);
        assert(seq![s] =~= want);
    }
}

/// The nodes of a row.
proof fn lemma_tape_row(
    s: Stores,
    open: Seq<Text>,
    f: Seq<Text>,
    values: Seq<Val>,
    o: Entries,
    k: int,
    done: Seq<Mark>,
)
    requires
        values.len() == f.len() == o.len(),
        f.len() > 0,
        0 <= k <= f.len(),
        forall|j: int| 0 <= j < f.len() ==> is_simple(#[trigger] values[j]) && token_reads(values[j]),
        forall|j: int| 0 <= j < f.len() ==> #[trigger] o[j] == (f[j], values[j]),
    ensures
        tape_row(
            s,
            open,
            raw_keys(f),
            cells(joined(primitive_texts(values, ','), separator(','), 0), ','),
            k,
            done,
        ) == (done + entry_nodes(o, k), open),
    decreases f.len() - k,
{
    let parts = primitive_texts(values, ',');
    assert forall|j: int| 0 <= j < parts.len() implies is_token(#[trigger] parts[j]) by {
        assert(is_simple(values[j]));
        lemma_primitive_reads(s, open, values[j]);
    }
    let x = joined(parts, separator(','), 0);
    lemma_cells(parts, 0);
    assert(x =~= Seq::<char>::empty() + parts[0] + joined(parts, separator(','), 1));
    lemma_entry_nodes(o, k);
    if k < f.len() {
        assert(is_simple(values[k]));
        lemma_tape_primitive(s, open, values[k]);
        let cell = cells(x, ',')[k];
        assert(tape_primitive(s, open, cell) == (nodes(values[k]), open));
        assert(o[k] == (f[k], values[k]));
        let more = done + (seq![Mark::Key(raw_key(f[k]))] + nodes(values[k]));
        lemma_tape_row(s, open, f, values, o, k + 1, more);
        assert(more + entry_nodes(o, k + 1) =~= done + entry_nodes(o, k));
    } else {
        assert(done + entry_nodes(o, k) =~= done);
    }
}

// ---------------------------------------------------------------------------
// Lines

/// Whether lines stand no deeper than `depth` where they begin.
pub open spec fn closes(ls: Seq<Line>, depth: int) -> bool {
    ls.len() == 0 || ls[0].depth <= depth
}

/// A run of nodes that ends before `rest`.
pub open spec fn ran(marks: Seq<Mark>, count: nat, rest: Seq<Line>, open: Seq<Text>) -> Out<Run> {
    good(Run { marks, count, rest }, open)
}

/// The first of some lines and the others.
proof fn lemma_head_lines(w: Seq<Line>, rest: Seq<Line>)
    requires
        w.len() > 0,
    ensures
        (w + rest).len() > 0,
        (w + rest)[0] == w[0],
        (w + rest).drop_first() == w.drop_first() + rest,
{
    assert((w + rest).drop_first() =~= w.drop_first() + rest);
}

/// The lines for the entries from the `j`-th on: those for the entry, and those
/// behind it, which stand no deeper.
proof fn lemma_entry_lines(o: Entries, depth: int, j: int, refs: bool, rest: Seq<Line>)
    requires
        0 <= j < o.len(),
        entries_read(plain_style(), o, j, refs),
        closes(rest, depth - 1),
    ensures
        ({
            let ls = entry_lines(o, depth, j, refs) + rest;
            let w = written_entry(plain_style(), o[j].0, o[j].1, depth, refs);
            let more = entry_lines(o, depth, j + 1, refs) + rest;
            &&& ls.len() > more.len()
            &&& ls[0] == w[0]
            &&& ls.drop_first() == w.drop_first() + more
            &&& w[0].depth == depth
            &&& !is_item(w[0].text)
            &&& closes(more, depth)
            &&& entry_reads(plain_style(), o[j].0, o[j].1, refs)
            &&& entries_read(plain_style(), o, j + 1, refs)
        }),
{
    let e = plain_style();
    let w = written_entry(e, o[j].0, o[j].1, depth, refs);
    let more = entry_lines(o, depth, j + 1, refs) + rest;
    assert(entry_reads(e, o[j].0, o[j].1, refs));
    lemma_entry_first(e, o[j].0, o[j].1, depth, refs);
    assert(entry_lines(o, depth, j, refs) + rest =~= w + more);
    lemma_head_lines(w, more);
    if j + 1 < o.len() {
        assert(entries_read(e, o, j + 1, refs));
        assert(entry_reads(e, o[j + 1].0, o[j + 1].1, refs));
        lemma_entry_first(e, o[j + 1].0, o[j + 1].1, depth, refs);
        let next = written_entry(e, o[j + 1].0, o[j + 1].1, depth, refs);
        assert(more =~= next + (entry_lines(o, depth, j + 2, refs) + rest));
        assert(more[0] == next[0]);
    } else {
        assert(more =~= rest);
    }
}

/// The lines for the entries from the `j`-th on.
pub open spec fn entry_lines(o: Entries, depth: int, j: int, refs: bool) -> Seq<Line> {
    if refs {
        written_entries(plain_style(), o, depth, j)
    } else {
        written_rest(plain_style(), o, depth, j)
    }
}

/// The lines for the items from the `j`-th on: those for the item, and those
/// behind it, which stand no deeper.
proof fn lemma_item_lines(a: Seq<Val>, base: int, j: int, rest: Seq<Line>)
    requires
        0 <= j < a.len(),
        items_read(plain_style(), a, j),
        closes(rest, base),
    ensures
        ({
            let more = written_items(plain_style(), a, base + 1, j + 1) + rest;
            &&& written_items(plain_style(), a, base + 1, j) + rest == written_item(
                plain_style(),
                a[j],
                base + 1,
            ) + more
            &&& closes(more, base + 1)
            &&& item_reads(plain_style(), a[j])
            &&& items_read(plain_style(), a, j + 1)
        }),
{
    let e = plain_style();
    let w = written_item(e, a[j], base + 1);
    let more = written_items(e, a, base + 1, j + 1) + rest;
    assert(written_items(e, a, base + 1, j) + rest =~= w + more);
    assert(item_reads(e, a[j]));
    if j + 1 < a.len() {
        assert(items_read(e, a, j + 1));
        assert(item_reads(e, a[j + 1]));
        lemma_item_first(e, a[j + 1], base + 1);
        let next = written_item(e, a[j + 1], base + 1);
        assert(more =~= next + (written_items(e, a, base + 1, j + 2) + rest));
        assert(more[0] == next[0]);
    } else {
        assert(more =~= rest);
    }
}

/// Nodes in three parts.
proof fn lemma_marks(a: Seq<Mark>, b: Seq<Mark>, c: Seq<Mark>)
    ensures
        a + b + c == a + (b + c),
        a + Seq::<Mark>::empty() == a,
{
    assert(a + b + c =~= a + (b + c));
    assert(a + Seq::<Mark>::empty() =~= a);
}

/// An entry whose value stands on its line.
proof fn lemma_tape_value_field(
    s: Stores,
    open: Seq<Text>,
    k: Text,
    p: Text,
    m: Seq<Mark>,
    ls: Seq<Line>,
    depth: int,
)
    requires
        key_reads(k),
        is_trim(p),
        tape_inline(s, open, p) == (m, open),
    ensures
        tape_field(s, open, key_text(k) + ": "@ + p, ls, depth) == ran(
            seq![Mark::Key(raw_key(k))] + m,
            1,
            ls,
            open,
        ),
{
    reveal_strlit(": ");
    let t = key_text(k);
    let after = seq![' '] + p;
    let c = t + ": "@ + p;
    assert(c =~= t + seq![':'] + after);
    lemma_key_line(k, after);
    lemma_raw_key(k, after);
    assert(c.subrange(t.len() as int + 1, c.len() as int) =~= after);
    lemma_trim_of_trim(p);
}

/// The nodes of an entry.
proof fn lemma_tape_field(
    s: Stores,
    open: Seq<Text>,
    k: Text,
    v: Val,
    depth: int,
    refs: bool,
    rest: Seq<Line>,
)
    requires
        entry_reads(plain_style(), k, v, refs),
        closes(rest, depth),
    ensures
        ({
            let w = written_entry(plain_style(), k, v, depth, refs);
            &&& w.len() > 0
            &&& tape_field(s, open, w[0].text, w.drop_first() + rest, depth) == ran(
                seq![Mark::Key(raw_key(k))] + nodes(read_back(plain_style(), v)),
                1,
                rest,
                open,
            )
        }),
    decreases v, 0int,
{
    let e = plain_style();
    let w = written_entry(e, k, v, depth, refs);
    let t = key_text(k);
    lemma_plain_style(s, open, seq![]);
    lemma_entry_first(e, k, v, depth, refs);
    if v is Array && v->Array_0.len() > 0 {
        let a = v->Array_0;
        assert(decreases_to!(v => a));
        lemma_array_parts(e, t, true, a, depth, depth + 1);
        lemma_head(e, Some(k), a);
        let h = array_header(head_text(t, a))->0;
        assert(w[0].text == head_text(t, a));
        assert(w.drop_first() =~= body_lines(e, a, depth + 1));
        lemma_tape_array(s, open, a, depth, h, rest);
    } else if v is Object && v->Object_0.len() > 0 {
        let o = v->Object_0;
        assert(decreases_to!(v => o));
        let below = written_entries(e, o, depth + 1, 0);
        assert(w =~= seq![Line { depth, text: t + ":"@ }] + below);
        assert(w.drop_first() =~= below);
        lemma_tape_object(s, open, o, depth + 1, 0, seq![], 0, rest);
        lemma_tape_nested(s, open, k, o, depth, rest);
        lemma_read_entries(e, o, 0, true);
        lemma_entry_nodes(read_entries(e, o, 0, true), 0);
    } else {
        lemma_first_text(e, k, v, depth);
        lemma_tape_flat(s, open, v);
        assert(w =~= seq![Line { depth, text: t + ": "@ + flat_text(v) }]);
        assert(w.drop_first() + rest =~= rest);
        lemma_tape_value_field(s, open, k, flat_text(v), nodes(v), rest, depth);
        lemma_flat_back(v);
    }
}

/// A value that stands on one line is read back as it is.
proof fn lemma_flat_back(v: Val)
    requires
        v matches Val::Array(a) ==> a.len() == 0,
        v matches Val::Object(o) ==> o.len() == 0,
    ensures
        read_back(plain_style(), v) == v,
{
    match v {
        Val::Array(a) => {
            assert(read_items(plain_style(), a, 0) =~= a);
        },
        Val::Object(o) => {
            assert(read_entries(plain_style(), o, 0, true) =~= o);
        },
        _ => {},
    }
}

/// An entry whose entries stand below it.
proof fn lemma_tape_nested(
    s: Stores,
    open: Seq<Text>,
    k: Text,
    o: Entries,
    depth: int,
    rest: Seq<Line>,
)
    requires
        o.len() > 0,
        key_reads(k),
        entries_read(plain_style(), o, 0, true),
        tape_object(
            s,
            open,
            written_entries(plain_style(), o, depth + 1, 0) + rest,
            depth + 1,
            seq![],
            0,
        ) == ran(
            Seq::<Mark>::empty() + entry_nodes(read_entries(plain_style(), o, 0, true), 0),
            o.len(),
            rest,
            open,
        ),
    ensures
        tape_field(
            s,
            open,
            key_text(k) + ":"@,
            written_entries(plain_style(), o, depth + 1, 0) + rest,
            depth,
        ) == ran(
            seq![Mark::Key(raw_key(k))] + (seq![Mark::Object(o.len())] + entry_nodes(
                read_entries(plain_style(), o, 0, true),
                0,
            )),
            1,
            rest,
            open,
        ),
{
    let e = plain_style();
    let t = key_text(k);
    let c = t + ":"@;
    let none: Text = seq![];
    reveal_strlit(":");
    assert(c =~= t + seq![':'] + none);
    lemma_key_line(k, none);
    lemma_raw_key(k, none);
    assert(c.subrange(t.len() as int + 1, c.len() as int) =~= none);
    assert(trim(none) =~= none);
    let below = written_entries(e, o, depth + 1, 0);
    assert(entry_reads(e, o[0].0, o[0].1, true));
    lemma_entry_first(e, o[0].0, o[0].1, depth + 1, true);
    let first = written_entry(e, o[0].0, o[0].1, depth + 1, true);
    assert(below == first + written_entries(e, o, depth + 1, 1));
    assert((below + rest)[0] == first[0]);
    let m = entry_nodes(read_entries(e, o, 0, true), 0);
    assert(Seq::<Mark>::empty() + m =~= m);
}

/// The nodes of the entries of an object from the `j`-th on.
proof fn lemma_tape_object(
    s: Stores,
    open: Seq<Text>,
    o: Entries,
    depth: int,
    j: int,
    done: Seq<Mark>,
    n: nat,
    rest: Seq<Line>,
)
    requires
        0 <= j <= o.len(),
        entries_read(plain_style(), o, j, true),
        closes(rest, depth - 1),
    ensures
        tape_object(s, open, written_entries(plain_style(), o, depth, j) + rest, depth, done, n)
            == ran(
            done + entry_nodes(read_entries(plain_style(), o, 0, true), j),
            (n + (o.len() - j)) as nat,
            rest,
            open,
        ),
    decreases o, o.len() - j,
{
    let e = plain_style();
    let r = read_entries(e, o, 0, true);
    lemma_read_entries(e, o, 0, true);
    lemma_entry_nodes(r, j);
    if j < o.len() {
        let k = o[j].0;
        let v = o[j].1;
        lemma_entry_smaller(o, j);
        lemma_entry_lines(o, depth, j, true, rest);
        let more = entry_lines(o, depth, j + 1, true) + rest;
        let ls = entry_lines(o, depth, j, true) + rest;
        lemma_tape_field(s, open, k, v, depth, true, more);
        let m = seq![Mark::Key(raw_key(k))] + nodes(read_back(e, v));
        assert(read_entry(e, v, true) == read_back(e, v));
        assert(shorter(ls, more) == more);
        lemma_tape_object(s, open, o, depth, j + 1, done + m, n + 1, rest);
        lemma_marks(done, m, entry_nodes(r, j + 1));
    } else {
        assert(entry_lines(o, depth, j, true) + rest =~= rest);
        lemma_marks(done, done, done);
    }
}

/// The nodes of the other entries of a list item from the `j`-th on.
proof fn lemma_tape_more(
    s: Stores,
    open: Seq<Text>,
    o: Entries,
    depth: int,
    j: int,
    done: Seq<Mark>,
    n: nat,
    rest: Seq<Line>,
)
    requires
        0 <= j <= o.len(),
        entries_read(plain_style(), o, j, false),
        closes(rest, depth - 1),
    ensures
        tape_more(s, open, written_rest(plain_style(), o, depth, j) + rest, depth, done, n) == ran(
            done + entry_nodes(read_entries(plain_style(), o, 0, false), j),
            (n + (o.len() - j)) as nat,
            rest,
            open,
        ),
    decreases o, o.len() - j,
{
    let e = plain_style();
    let r = read_entries(e, o, 0, false);
    lemma_read_entries(e, o, 0, false);
    lemma_entry_nodes(r, j);
    if j < o.len() {
        let k = o[j].0;
        let v = o[j].1;
        lemma_entry_smaller(o, j);
        lemma_entry_lines(o, depth, j, false, rest);
        let more = entry_lines(o, depth, j + 1, false) + rest;
        let ls = entry_lines(o, depth, j, false) + rest;
        lemma_tape_field(s, open, k, v, depth, false, more);
        let m = seq![Mark::Key(raw_key(k))] + nodes(read_back(e, v));
        assert(read_entry(e, v, false) == read_back(e, v));
        assert(shorter(ls, more) == more);
        lemma_tape_more(s, open, o, depth, j + 1, done + m, n + 1, rest);
        lemma_marks(done, m, entry_nodes(r, j + 1));
    } else {
        assert(entry_lines(o, depth, j, false) + rest =~= rest);
        lemma_marks(done, done, done);
    }
}

/// The nodes of an array behind its header.
proof fn lemma_tape_array(
    s: Stores,
    open: Seq<Text>,
    a: Seq<Val>,
    depth: int,
    h: Header,
    rest: Seq<Line>,
)
    requires
        a.len() > 0,
        array_reads(plain_style(), a),
        heads(h, h.key, a),
        !all_simple(a) ==> closes(rest, depth),
    ensures
        tape_array(s, open, body_lines(plain_style(), a, depth + 1) + rest, depth, h) == ran(
            nodes(read_back(plain_style(), Val::Array(a))),
            1,
            rest,
            open,
        ),
    decreases a, a.len() + 1,
{
    let e = plain_style();
    let none = Seq::<Mark>::empty();
    if all_simple(a) {
        assert forall|j: int| 0 <= j < a.len() implies is_simple(#[trigger] a[j]) && token_reads(
            a[j],
        ) by {}
        lemma_tape_delimited(s, open, a);
        assert(is_simple(a[0]));
        lemma_simple_items(e, a, 0);
        assert(a.subrange(0, a.len() as int) =~= a);
        assert(body_lines(e, a, depth + 1) + rest =~= rest);
    } else {
        match table_fields(a) {
            Some(f) => {
                lemma_tape_table(s, open, a, f, depth, 0, none, rest);
                lemma_item_nodes(table_rows(a, f), 0);
                assert(none + item_nodes(table_rows(a, f), 0) =~= item_nodes(table_rows(a, f), 0));
            },
            None => {
                lemma_tape_items(s, open, a, depth, 0, none, rest);
                lemma_read_items(e, a, 0);
                let r = read_items(e, a, 0);
                lemma_item_nodes(r, 0);
                assert(none + item_nodes(r, 0) =~= item_nodes(r, 0));
            },
        }
    }
}

/// The nodes of the rows of a table from the `i`-th on.
proof fn lemma_tape_table(
    s: Stores,
    open: Seq<Text>,
    a: Seq<Val>,
    f: Seq<Text>,
    depth: int,
    i: int,
    done: Seq<Mark>,
    rest: Seq<Line>,
)
    requires
        table_fields(a) == Some(f),
        table_reads(a, f),
        0 <= i <= a.len(),
    ensures
        tape_table(
            s,
            open,
            row_lines(a, f, ',', depth + 1, i) + rest,
            depth,
            a.len(),
            raw_keys(f),
            ',',
            done,
            i as nat,
        ) == (
            Run { marks: done + item_nodes(table_rows(a, f), i), count: a.len(), rest },
            open,
        ),
    decreases a.len() - i,
{
    let rows = table_rows(a, f);
    let w = row_lines(a, f, ',', depth + 1, i);
    lemma_row_lines(a, f, depth + 1, i);
    lemma_item_nodes(rows, i);
    if i < a.len() {
        let vals = row_values(a[i], f);
        let x = joined(primitive_texts(vals, ','), separator(','), 0);
        let o = in_field_order(a[i], f);
        assert(w[0] == (Line { depth: depth + 1, text: x }));
        lemma_row_lines(a, f, depth + 1, i + 1);
        let more = row_lines(a, f, ',', depth + 1, i + 1);
        assert(w.drop_first() =~= more) by {
            assert forall|j: int| 0 <= j < more.len() implies w[j + 1] == more[j] by {}
        }
        lemma_head_lines(w, rest);
        lemma_row_values(a, f, i);
        lemma_tape_row(s, open, f, vals, o, 0, seq![]);
        lemma_entry_nodes(o, 0);
        let none = Seq::<Mark>::empty();
        assert(none + entry_nodes(o, 0) =~= entry_nodes(o, 0));
        assert(rows[i] == Val::Object(o));
        let m = seq![Mark::Object(f.len())] + entry_nodes(o, 0);
        lemma_tape_table(s, open, a, f, depth, i + 1, done + m, rest);
        assert(done + m + item_nodes(rows, i + 1) =~= done + item_nodes(rows, i));
    } else {
        assert(w + rest =~= rest);
        assert(done + item_nodes(rows, i) =~= done);
    }
}

/// The nodes of the list items from the `j`-th on.
proof fn lemma_tape_items(
    s: Stores,
    open: Seq<Text>,
    a: Seq<Val>,
    base: int,
    j: int,
    done: Seq<Mark>,
    rest: Seq<Line>,
)
    requires
        0 <= j <= a.len(),
        items_read(plain_style(), a, j),
        closes(rest, base),
    ensures
        tape_expanded(
            s,
            open,
            written_items(plain_style(), a, base + 1, j) + rest,
            base,
            a.len(),
            done,
            j as nat,
        ) == ran(
            done + item_nodes(read_items(plain_style(), a, 0), j),
            a.len(),
            rest,
            open,
        ),
    decreases a, a.len() - j,
{
    let e = plain_style();
    let r = read_items(e, a, 0);
    lemma_read_items(e, a, 0);
    lemma_item_nodes(r, j);
    if j < a.len() {
        let v = a[j];
        lemma_item_smaller(a, j);
        lemma_item_lines(a, base, j, rest);
        let more = written_items(e, a, base + 1, j + 1) + rest;
        lemma_tape_item(s, open, v, base, a.len(), done, j as nat, more);
        let m = nodes(read_item(e, v));
        lemma_tape_items(s, open, a, base, j + 1, done + m, rest);
        lemma_marks(done, m, item_nodes(r, j + 1));
    } else {
        assert(written_items(e, a, base + 1, j) + rest =~= rest);
        lemma_marks(done, done, done);
    }
}

/// The nodes of a list item.
proof fn lemma_tape_item(
    s: Stores,
    open: Seq<Text>,
    v: Val,
    base: int,
    most: nat,
    done: Seq<Mark>,
    n: nat,
    more: Seq<Line>,
)
    requires
        item_reads(plain_style(), v),
        n < most,
        closes(more, base + 1),
    ensures
        tape_expanded(
            s,
            open,
            written_item(plain_style(), v, base + 1) + more,
            base,
            most,
            done,
            n,
        ) == tape_expanded(
            s,
            open,
            more,
            base,
            most,
            done + nodes(read_item(plain_style(), v)),
            n + 1,
        ),
    decreases v, 0int,
{
    let e = plain_style();
    let w = written_item(e, v, base + 1);
    lemma_plain_style(s, open, seq![]);
    lemma_item_first(e, v, base + 1);
    lemma_head_lines(w, more);
    if v is Object && v->Object_0.len() > 0 {
        let o = v->Object_0;
        assert(decreases_to!(v => o));
        assert(w == written_object_item(e, o, base + 1));
        lemma_tape_object_item(s, open, o, base, more);
    } else if v is Array && v->Array_0.len() > 0 {
        let a = v->Array_0;
        assert(decreases_to!(v => a));
        lemma_tape_array_item(s, open, a, base, more);
    } else {
        let p = flat_text(v);
        lemma_flat_item(v, base + 1);
        lemma_item_text(p);
        lemma_no_colon(p);
        lemma_tape_flat(s, open, v);
        lemma_flat_back(v);
        lemma_item_back(v);
        assert(w.drop_first() + more =~= more);
    }
}

/// The nodes of an array that is a list item.
proof fn lemma_tape_array_item(
    s: Stores,
    open: Seq<Text>,
    a: Seq<Val>,
    base: int,
    more: Seq<Line>,
)
    requires
        a.len() > 0,
        array_reads(plain_style(), a),
        closes(more, base + 1),
    ensures
        ({
            let w = written_item(plain_style(), Val::Array(a), base + 1);
            let after = w.drop_first() + more;
            let m = nodes(read_back(plain_style(), Val::Array(a)));
            array_header(item_text(w[0].text)) matches Some(h) && h.key is None && match h.inline {
                Some(x) => tape_delimited(s, open, x, h.delimiter) == (m, open) && after == more,
                None => tape_array(s, open, after, item_base(base + 1, depth_at(after, 0)), h)
                    == ran(m, 1, more, open),
            }
        }),
    decreases a, a.len() + 2,
{
    let e = plain_style();
    let none: Text = seq![];
    let w = written_item(e, Val::Array(a), base + 1);
    let c = head_text(none, a);
    let body = body_lines(e, a, base + 3);
    lemma_plain_style(s, open, seq![]);
    lemma_dash_head(none, a);
    lemma_array_parts(e, "- "@, true, a, base + 1, base + 3);
    let line = seq![Line { depth: base + 1, text: "- "@ + c }];
    assert(w == line + body);
    assert(w[0] == line[0]);
    assert(w.drop_first() =~= body);
    lemma_item_text(c);
    lemma_head(e, None, a);
    let h = array_header(c)->0;
    if all_simple(a) {
        assert forall|j: int| 0 <= j < a.len() implies is_simple(#[trigger] a[j]) && token_reads(
            a[j],
        ) by {}
        lemma_tape_delimited(s, open, a);
        assert(is_simple(a[0]));
        lemma_simple_items(e, a, 0);
        assert(a.subrange(0, a.len() as int) =~= a);
        assert(body + more =~= more);
    } else {
        lemma_body_first(e, a, base + 3);
        assert((body + more)[0] == body[0]);
        lemma_tape_array(s, open, a, base + 2, h, more);
    }
}

/// A list item that stands on one line is read back as it is.
proof fn lemma_item_back(v: Val)
    requires
        v matches Val::Object(o) ==> o.len() == 0,
    ensures
        read_item(plain_style(), v) == read_back(plain_style(), v),
{
    if let Val::Object(o) = v {
        assert(read_entries(plain_style(), o, 0, false) =~= read_entries(
            plain_style(),
            o,
            0,
            true,
        ));
    }
}

/// The line of a list item without a colon.
proof fn lemma_flat_item(v: Val, depth: int)
    requires
        item_reads(plain_style(), v),
        v matches Val::Array(a) ==> a.len() == 0,
        v matches Val::Object(o) ==> o.len() == 0,
    ensures
        written_item(plain_style(), v, depth) == seq![
            Line { depth, text: "- "@ + flat_text(v) },
        ],
        !has_colon(flat_text(v)),
{
    let w = written_item(plain_style(), v, depth);
    reveal_strlit("- {}");
    reveal_strlit("- []");
    reveal_strlit("- ");
    reveal_strlit("[]");
    reveal_strlit("{}");
    if is_simple(v) {
        lemma_listed(v);
    }
    lemma_empty_no_colon();
    assert(w[0].text =~= "- "@ + flat_text(v));
    assert(w =~= seq![Line { depth, text: "- "@ + flat_text(v) }]);
}

/// The lines for an object that is a list item: those for its first entry, and
/// those for the others.
proof fn lemma_item_split(o: Entries, base: int, more: Seq<Line>)
    requires
        o.len() > 0,
        first_reads(plain_style(), o[0].0, o[0].1),
        entries_read(plain_style(), o, 1, false),
        closes(more, base + 1),
    ensures
        ({
            let w = written_object_item(plain_style(), o, base + 1);
            let first = written_first(plain_style(), o[0].0, o[0].1, base + 1);
            let rest = written_rest(plain_style(), o, base + 2, 1) + more;
            &&& first.len() > 0 ==> w.len() > 0 && w[0] == first[0] && w.drop_first() + more
                == first.drop_first() + rest
            &&& closes(rest, base + 2)
        }),
{
    let e = plain_style();
    let first = written_first(e, o[0].0, o[0].1, base + 1);
    let others = written_rest(e, o, base + 2, 1);
    assert(written_object_item(e, o, base + 1) == first + others);
    lemma_three_parts(first, others, more);
    lemma_others_close(o, base + 2, more);
}

/// Lines in three parts.
proof fn lemma_three_parts(a: Seq<Line>, b: Seq<Line>, c: Seq<Line>)
    ensures
        a.len() > 0 ==> (a + b).len() > 0 && (a + b)[0] == a[0] && (a + b).drop_first() + c
            == a.drop_first() + (b + c),
{
    if a.len() > 0 {
        assert((a + b).drop_first() + c =~= a.drop_first() + (b + c));
    }
}

/// The other entries of a list item stand no deeper than they should.
proof fn lemma_others_close(o: Entries, depth: int, more: Seq<Line>)
    requires
        o.len() > 0,
        entries_read(plain_style(), o, 1, false),
        closes(more, depth - 1),
    ensures
        closes(written_rest(plain_style(), o, depth, 1) + more, depth),
{
    let e = plain_style();
    let others = written_rest(e, o, depth, 1);
    if o.len() > 1 {
        lemma_entry_lines(o, depth, 1, false, more);
        lemma_entry_first(e, o[1].0, o[1].1, depth, false);
        let next = written_entry(e, o[1].0, o[1].1, depth, false);
        assert((others + more)[0] == next[0]);
    } else {
        assert(others =~= seq![]);
        assert(others + more =~= more);
    }
}

/// The nodes of an object that is a list item.
proof fn lemma_tape_object_item(
    s: Stores,
    open: Seq<Text>,
    o: Entries,
    base: int,
    more: Seq<Line>,
)
    requires
        o.len() > 0,
        first_reads(plain_style(), o[0].0, o[0].1),
        entries_read(plain_style(), o, 1, false),
        closes(more, base + 1),
    ensures
        ({
            let w = written_object_item(plain_style(), o, base + 1);
            let item = item_text(w[0].text);
            &&& w.len() > 0
            &&& !is_inline_item(item)
            &&& array_header(item) matches Some(h) ==> h.key is Some
            &&& tape_list_item(s, open, item, w.drop_first() + more, base) == ran(
                nodes(Val::Object(read_entries(plain_style(), o, 0, false))),
                1,
                more,
                open,
            )
        }),
    decreases o, o.len() + 1,
{
    let e = plain_style();
    let k = o[0].0;
    let v = o[0].1;
    let first = written_first(e, k, v, base + 1);
    let others = written_rest(e, o, base + 2, 1);
    let w = written_object_item(e, o, base + 1);
    lemma_entry_smaller(o, 0);
    lemma_item_split(o, base, more);
    lemma_tape_first(s, open, k, v, base, others + more);
    let r = read_entries(e, o, 0, false);
    lemma_read_entries(e, o, 0, false);
    lemma_entry_nodes(r, 0);
    let m = seq![Mark::Key(raw_key(k))] + nodes(read_back(e, v));
    assert(read_entry(e, v, false) == read_back(e, v));
    lemma_tape_more(s, open, o, base + 2, 1, m, 1, more);
    assert(m + entry_nodes(r, 1) == entry_nodes(r, 0));
    lemma_list_item(
        s,
        open,
        item_text(w[0].text),
        first.drop_first() + (others + more),
        base,
        m,
        others + more,
        entry_nodes(r, 0),
        o.len(),
        more,
    );
}

/// The nodes of a list item: those of its first entry, and of the others.
proof fn lemma_list_item(
    s: Stores,
    open: Seq<Text>,
    item: Text,
    ls: Seq<Line>,
    base: int,
    m: Seq<Mark>,
    then: Seq<Line>,
    all: Seq<Mark>,
    n: nat,
    rest: Seq<Line>,
)
    requires
        tape_item_head(s, open, item, ls, base) == ran(m, 1, then, open),
        then.len() <= ls.len(),
        tape_more(s, open, then, base + 2, m, 1) == ran(all, n, rest, open),
    ensures
        tape_list_item(s, open, item, ls, base) == ran(
            seq![Mark::Object(n)] + all,
            1,
            rest,
            open,
        ),
{
}

/// The nodes of the first entry of an object that is a list item.
proof fn lemma_tape_first(
    s: Stores,
    open: Seq<Text>,
    k: Text,
    v: Val,
    base: int,
    rest: Seq<Line>,
)
    requires
        first_reads(plain_style(), k, v),
        closes(rest, base + 2),
    ensures
        ({
            let w = written_first(plain_style(), k, v, base + 1);
            let item = item_text(w[0].text);
            &&& w.len() > 0
            &&& !is_inline_item(item)
            &&& array_header(item) matches Some(h) ==> h.key is Some
            &&& tape_item_head(s, open, item, w.drop_first() + rest, base) == ran(
                seq![Mark::Key(raw_key(k))] + nodes(read_back(plain_style(), v)),
                1,
                rest,
                open,
            )
        }),
    decreases v, 0int,
{
    if v is Array && v->Array_0.len() > 0 {
        let a = v->Array_0;
        assert(decreases_to!(v => a));
        lemma_tape_first_array(s, open, k, a, base, rest);
    } else if v is Object && v->Object_0.len() > 0 {
        let o = v->Object_0;
        assert(decreases_to!(v => o));
        lemma_tape_first_object(s, open, k, o, base, rest);
    } else {
        lemma_tape_first_flat(s, open, k, v, base, rest);
    }
}

/// The nodes of an array under the first key of a list item.
proof fn lemma_tape_first_array(
    s: Stores,
    open: Seq<Text>,
    k: Text,
    a: Seq<Val>,
    base: int,
    rest: Seq<Line>,
)
    requires
        a.len() > 0,
        first_reads(plain_style(), k, Val::Array(a)),
        closes(rest, base + 2),
    ensures
        ({
            let w = written_first(plain_style(), k, Val::Array(a), base + 1);
            let item = item_text(w[0].text);
            &&& w.len() > 0
            &&& !is_inline_item(item)
            &&& array_header(item) matches Some(h) ==> h.key is Some
            &&& tape_item_head(s, open, item, w.drop_first() + rest, base) == ran(
                seq![Mark::Key(raw_key(k))] + nodes(read_back(plain_style(), Val::Array(a))),
                1,
                rest,
                open,
            )
        }),
    decreases a, a.len() + 2,
{
    let e = plain_style();
    let w = written_first(e, k, Val::Array(a), base + 1);
    lemma_plain_style(s, open, seq![]);
    let c = head_text(key_text(k), a);
    let body = body_lines(e, a, base + 3);
    lemma_first_array(e, k, a, base + 1);
    lemma_item_text(c);
    assert(w[0].text == "- "@ + c);
    assert(w.drop_first() =~= body);
    lemma_header_colon(c);
    lemma_no_reference(c);
    let h = array_header(c)->0;
    let at = item_base(base + 1, depth_at(body + rest, 0));
    if all_simple(a) {
        assert(body_lines(e, a, at + 1) =~= body);
    } else {
        lemma_body_first(e, a, base + 3);
        assert((body + rest)[0] == body[0]);
    }
    lemma_tape_array(s, open, a, at, h, rest);
}

/// The nodes of an object under the first key of a list item.
proof fn lemma_tape_first_object(
    s: Stores,
    open: Seq<Text>,
    k: Text,
    o: Entries,
    base: int,
    rest: Seq<Line>,
)
    requires
        o.len() > 0,
        first_reads(plain_style(), k, Val::Object(o)),
        closes(rest, base + 2),
    ensures
        ({
            let w = written_first(plain_style(), k, Val::Object(o), base + 1);
            let item = item_text(w[0].text);
            &&& w.len() > 0
            &&& !is_inline_item(item)
            &&& array_header(item) matches Some(h) ==> h.key is Some
            &&& tape_item_head(s, open, item, w.drop_first() + rest, base) == ran(
                seq![Mark::Key(raw_key(k))] + nodes(read_back(plain_style(), Val::Object(o))),
                1,
                rest,
                open,
            )
        }),
    decreases o, o.len() + 2,
{
    let e = plain_style();
    let w = written_first(e, k, Val::Object(o), base + 1);
    lemma_plain_style(s, open, seq![]);
    lemma_first_object(e, k, o, base + 1);
    let c = key_text(k) + ":"@;
    let body = written_entries(e, o, base + 3, 0);
    lemma_item_text(c);
    assert(w[0].text == "- "@ + c);
    assert(w.drop_first() =~= body);
    assert((body + rest)[0] == body[0]);
    let none: Text = seq![];
    reveal_strlit(":");
    assert(c =~= key_text(k) + seq![':'] + none);
    lemma_raw_key(k, none);
    lemma_tape_object(s, open, o, base + 3, 0, seq![], 0, rest);
    lemma_read_entries(e, o, 0, true);
    let r = read_entries(e, o, 0, true);
    lemma_entry_nodes(r, 0);
    assert(Seq::<Mark>::empty() + entry_nodes(r, 0) =~= entry_nodes(r, 0));
}

/// The nodes of the first entry of a list item whose value stands on the line.
proof fn lemma_tape_first_flat(
    s: Stores,
    open: Seq<Text>,
    k: Text,
    v: Val,
    base: int,
    rest: Seq<Line>,
)
    requires
        first_reads(plain_style(), k, v),
        v matches Val::Array(a) ==> a.len() == 0,
        v matches Val::Object(o) ==> o.len() == 0,
    ensures
        ({
            let w = written_first(plain_style(), k, v, base + 1);
            let item = item_text(w[0].text);
            &&& w.len() > 0
            &&& !is_inline_item(item)
            &&& array_header(item) matches Some(h) ==> h.key is Some
            &&& tape_item_head(s, open, item, w.drop_first() + rest, base) == ran(
                seq![Mark::Key(raw_key(k))] + nodes(read_back(plain_style(), v)),
                1,
                rest,
                open,
            )
        }),
{
    let e = plain_style();
    let w = written_first(e, k, v, base + 1);
    let p = flat_text(v);
    let line = key_text(k) + ": "@ + p;
    lemma_plain_style(s, open, seq![]);
    lemma_flat_back(v);
    lemma_first_text(e, k, v, base + 1);
    lemma_item_text(line);
    lemma_pair_facts(k, v);
    lemma_tape_flat(s, open, v);
    lemma_no_reference(line);
    assert(w.drop_first() + rest =~= rest);
    lemma_flat_head(s, open, line, key_text(k).len() as int + 1, p, raw_key(k), nodes(v), rest, base);
}

/// The line for an entry whose value stands on it.
proof fn lemma_pair_facts(k: Text, v: Val)
    requires
        first_reads(plain_style(), k, v),
        v matches Val::Array(a) ==> a.len() == 0,
        v matches Val::Object(o) ==> o.len() == 0,
    ensures
        ({
            let line = key_text(k) + ": "@ + flat_text(v);
            let end = key_text(k).len() as int + 1;
            &&& array_header(line) is None
            &&& line.len() > 0
            &&& line[0] != '@'
            &&& has_colon(line)
            &&& raw_leading_key(line) == Ok::<(Text, int), Text>((raw_key(k), end))
            &&& trim(line.subrange(end, line.len() as int)) == flat_text(v)
            &&& flat_text(v).len() > 0
        }),
{
    let p = flat_text(v);
    let t = key_text(k);
    let line = t + ": "@ + p;
    let after = seq![' '] + p;
    reveal_strlit(": ");
    lemma_plain_style(arbitrary(), arbitrary(), seq![]);
    lemma_first_text(plain_style(), k, v, 0);
    lemma_flat_text(v);
    lemma_key_text(k);
    assert(line =~= t + seq![':'] + after);
    lemma_key_line(k, after);
    lemma_raw_key(k, after);
    assert(line.subrange(t.len() as int + 1, line.len() as int) =~= after);
    lemma_trim_of_trim(p);
    assert(line[0] == t[0]);
}

/// The nodes of the first entry of a list item whose value stands on the line.
proof fn lemma_flat_head(
    s: Stores,
    open: Seq<Text>,
    item: Text,
    end: int,
    p: Text,
    key: Text,
    m: Seq<Mark>,
    rest: Seq<Line>,
    base: int,
)
    requires
        array_header(item) is None,
        raw_leading_key(item) == Ok::<(Text, int), Text>((key, end)),
        trim(item.subrange(end, item.len() as int)) == p,
        p.len() > 0,
        tape_inline(s, open, p) == (m, open),
    ensures
        tape_item_head(s, open, item, rest, base) == ran(seq![Mark::Key(key)] + m, 1, rest, open),
{
}

// ---------------------------------------------------------------------------
// Documents

/// The lines of a layout of good lines are kept.
proof fn lemma_kept(w: Seq<Line>, indent: nat, width: nat)
    requires
        forall|i: int| 0 <= i < w.len() ==> good_line(#[trigger] w[i]) && w[i].depth >= 0,
        forall|i: int|
            0 <= i < w.len() ==> depth_of((indent * (#[trigger] w[i]).depth) as nat, width)
                == w[i].depth,
    ensures
        kept(layout(w, indent), width) == w,
    decreases w.len(),
{
    let s = layout(w, indent);
    if w.len() > 0 {
        let first = line_text(w[0], indent);
        assert(good_line(w[0]));
        lemma_line_text(w[0], indent);
        assert(kept_line(first, width) =~= seq![w[0]]);
        lemma_find_from(s, '\n', 0);
        if w.len() == 1 {
            assert(s == first);
            assert(kept(s, width) =~= w);
        } else {
            let rest = w.drop_first();
            let more = layout(rest, indent);
            lemma_layout_first(w, indent);
            assert forall|i: int| 0 <= i < rest.len() implies good_line(#[trigger] rest[i])
                && rest[i].depth >= 0 && depth_of((indent * rest[i].depth) as nat, width)
                == rest[i].depth by {
                assert(rest[i] == w[i + 1]);
            }
            lemma_kept(rest, indent, width);
            let k = first.len() as int;
            assert(s[k] == '\n');
            assert forall|j: int| 0 <= j < k implies s[j] != '\n' by {
                assert(s[j] == first[j]);
            }
            lemma_find_at(s, '\n', k);
            assert(s.subrange(0, k) =~= first);
            assert(s.subrange(k + 1, s.len() as int) =~= more);
            assert(seq![w[0]] + rest =~= w);
        }
    }
}

/// There are no definitions among good lines.
proof fn lemma_prescanned(k: Known, w: Seq<Line>, indent: nat, i: int)
    requires
        0 <= i <= w.len(),
        forall|j: int| 0 <= j < w.len() ==> good_line(#[trigger] w[j]) && w[j].depth >= 0,
    ensures
        prescanned(k, line_texts(w, indent), i) == k,
    decreases w.len() - i,
{
    if i < w.len() {
        assert(good_line(w[i]));
        lemma_line_text(w[i], indent);
        lemma_prescanned(k, w, indent, i + 1);
    }
}

/// The nodes of the lines of a value.
proof fn lemma_tape_document(s: Stores, open: Seq<Text>, v: Val)
    requires
        reads_back(plain_style(), v),
    ensures
        tape_document(s, open, written_value(plain_style(), v)) == good(
            nodes(read_back(plain_style(), v)),
            open,
        ),
{
    let e = plain_style();
    let none: Seq<Line> = seq![];
    let no_marks: Seq<Mark> = seq![];
    match v {
        Val::Object(o) if o.len() > 0 => {
            let ls = written_entries(e, o, 0, 0);
            lemma_tape_object(s, open, o, 0, 0, no_marks, 0, none);
            assert(ls + none =~= ls);
            lemma_read_entries(e, o, 0, true);
            let r = read_entries(e, o, 0, true);
            lemma_entry_nodes(r, 0);
            assert(no_marks + entry_nodes(r, 0) =~= entry_nodes(r, 0));
            lemma_tape_root(s, open, o);
            reveal(tape_root);
        },
        Val::Array(a) if a.len() > 0 => {
            let none_text: Text = seq![];
            let ls = written_array(e, none_text, false, a, 0, 1);
            lemma_plain_style(s, open, none);
            lemma_array_parts(e, none_text, false, a, 0, 1);
            lemma_head(e, None, a);
            let h = array_header(head_text(none_text, a))->0;
            lemma_not_braces(head_text(none_text, a));
            lemma_tape_array(s, open, a, 0, h, none);
            assert(ls.drop_first() =~= body_lines(e, a, 1) + none);
            assert(ls[0] == (Line { depth: 0, text: head_text(none_text, a) }));
            reveal(root_array);
        },
        _ => {
            lemma_flat_back(v);
            lemma_tape_flat_document(s, open, v);
            assert(written_value(e, v) =~= seq![Line { depth: 0, text: flat_text(v) }]);
        },
    }
}

/// The nodes of an object that all lines stand for.
proof fn lemma_tape_root(s: Stores, open: Seq<Text>, o: Entries)
    requires
        o.len() > 0,
        entries_read(plain_style(), o, 0, true),
    ensures
        ({
            let ls = written_entries(plain_style(), o, 0, 0);
            tape_document(s, open, ls) == tape_root(s, open, ls)
        }),
{
    let e = plain_style();
    let ls = written_entries(e, o, 0, 0);
    lemma_plain_style(s, open, ls);
    assert(entry_reads(e, o[0].0, o[0].1, true));
    lemma_first_entry(e, o[0].0, o[0].1);
    let first = written_entry(e, o[0].0, o[0].1, 0, true);
    assert(ls == first + written_entries(e, o, 0, 1));
    lemma_entry_first(e, o[0].0, o[0].1, 0, true);
    assert(ls[0] == first[0]);
    lemma_empty_no_colon();
    reveal(fields_or_token);
}

/// The nodes of a primitive, an empty array or an empty object on a line of its
/// own.
proof fn lemma_tape_flat_document(s: Stores, open: Seq<Text>, v: Val)
    requires
        reads_back(plain_style(), v),
        v matches Val::Array(a) ==> a.len() == 0,
        v matches Val::Object(o) ==> o.len() == 0,
    ensures
        tape_document(s, open, seq![Line { depth: 0, text: flat_text(v) }]) == good(nodes(v), open),
{
    let ls = seq![Line { depth: 0, text: flat_text(v) }];
    let p = flat_text(v);
    reveal(fields_or_token);
    match v {
        Val::Object(o) => {
            lemma_entry_nodes(o, 0);
            assert(nodes(v) =~= seq![Mark::Object(0)]);
        },
        Val::Array(a) => {
            reveal_strlit("[]");
            reveal_strlit("{}");
            lemma_item_nodes(a, 0);
            assert(nodes(v) =~= seq![Mark::Array(0)]);
            lemma_empty_no_colon();
            lemma_trim_of_trim(p);
            assert("[]"@[0] != "{}"@[0]);
        },
        _ => {
            lemma_primitive_reads(s, open, v);
            lemma_listed(v);
            lemma_tape_primitive(s, open, v);
        },
    }
}

/// The tape of the document for a value holds the nodes of the value that a
/// decoder reads back from it. Strings and keys are as they are written between
/// quotes; but those of a document on one line with a semicolon in it, which is
/// taken for a minified one, are without escapes.
pub proof fn a_tape_holds_what_was_encoded(v: Val, indent: nat)
    requires
        reads_back(plain_style(), v),
        well_keyed(v),
        indent >= 1,
    ensures
        ({
            let s = encode_text(v, indent);
            let r = read_back(plain_style(), v);
            &&& decode_text(s) == Ok::<Val, Text>(r)
            &&& tape_step(new_setting(), s).0 == Ok::<Seq<Mark>, Text>(
                if is_minified(s) {
                    flat(r)
                } else {
                    nodes(r)
                },
            )
        }),
{
    let e = plain_style();
    let w = written_value(e, v);
    let s = encode_text(v, indent);
    let k = new_setting().known;
    lemma_plain_style(k.stores, k.open, w);
    lemma_value_block(e, v);
    assert forall|i: int| 0 <= i < w.len() implies good_line(#[trigger] w[i]) && w[i].depth >= 0
        && fits(w[i]) by {
        assert(good_line(w[i]));
    }
    let none: Seq<Line> = seq![];
    lemma_block_nests(w);
    lemma_fit(none, w);
    assert(none + w =~= w);
    lemma_lines_of_layout(w, indent);
    lemma_detected(w, indent);
    lemma_kept(w, indent, detected_indent(s, 1));
    lemma_prescanned(k, w, indent, 0);
    lemma_tape_document(k.stores, k.open, v);
    decoding_undoes_encoding(v, indent);
}

} // verus!
