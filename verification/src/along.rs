//! A tape goes along the lines of a document as a decoder does.

use vstd::prelude::*;
use crate::agreeing::{
    entries_mirror, items_mirror, lemma_delimited, lemma_entries_mirror, lemma_inline,
    lemma_items_mirror, lemma_one_entry, lemma_pieces_read, lemma_primitive, lemma_put_all_push,
    mirrors, name_mirrors, no_escapes, put_all, raw_primitive, without_escapes_a_tape_is_exact,
};
use crate::decoder::{
    array_lines, decode_step, decode_text, depth_at, document, expanded_lines, field,
    is_inline_item, is_item, is_minified, item_base, item_head, item_text, key_before, key_value,
    leading_key, left, list_item, list_lines, more_fields, new_setting, object_lines, row,
    table_lines, Out,
};
use crate::lines::{
    array_header, define, definition_kind, depth_of, detected_indent, is_silent, read_lines, Header,
    Known, Line,
};
use crate::scan::{
    cell_end, cut_pieces, has_colon, key_colon, lemma_piece_end, outside, piece_end, pieces, step,
    Place,
};
use crate::schema_registry::Stores;
use crate::tape::{
    cells, fields_or_token, flat, flat_entries, flat_items, kept, kept_line, no_longer, prescanned,
    raw_key_before, raw_leading_key, root_array, shorter, tape_array, tape_document, tape_expanded,
    tape_field, tape_item_head, tape_item_value, tape_key_value, tape_list, tape_list_item,
    tape_more, tape_object, tape_root, tape_row, tape_step, tape_table, Mark, Run,
};
use crate::text::{
    drop_return, find, indentation, is_space, lemma_find_from, lines, starts_with, trim, trim_start,
    Text,
};
use crate::tokens::{delimited, inline_value, primitive};
use crate::value::{lemma_key_index, put, well_keyed, Entries, Val};
use crate::whole::lemma_items_push;

verus! {

// ---------------------------------------------------------------------------
// Orderly lines

/// The lines from `i` on.
pub open spec fn rest_of(ls: Seq<Line>, i: int) -> Seq<Line> {
    ls.subrange(i, ls.len() as int)
}

/// Whether the lines from `a` on before `b` stand at least as deep as `d`.
pub open spec fn deeper(ls: Seq<Line>, a: int, b: int, d: int) -> bool {
    forall|h: int| a <= h < b ==> (#[trigger] ls[h]).depth >= d
}

/// Whether line `i` is the header `h` of an array, or a list item that is.
pub open spec fn header_on(ls: Seq<Line>, i: int, h: Header) -> bool {
    array_header(ls[i].text) == Some(h) || (is_item(ls[i].text) && array_header(
        item_text(ls[i].text),
    ) == Some(h))
}

/// Whether line `j` stands among the lines right behind line `i` that are at one
/// depth below it.
pub open spec fn is_row_of(ls: Seq<Line>, i: int, j: int) -> bool {
    i < j && ls[i + 1].depth > ls[i].depth && forall|x: int|
        i < x <= j ==> (#[trigger] ls[x]).depth == ls[i + 1].depth
}

/// Whether lines are orderly: behind a list item nothing but list items stands at
/// its depth, up to the next line before that depth, and the delimiters in the
/// rows of a table stand outside of braces and brackets.
pub open spec fn is_orderly(ls: Seq<Line>) -> bool {
    &&& forall|i: int, j: int|
        0 <= i < j < ls.len() && is_item((#[trigger] ls[i]).text) && (#[trigger] ls[j]).depth
            == ls[i].depth && deeper(ls, i, j, ls[i].depth) ==> is_item(ls[j].text)
    &&& forall|i: int, j: int, h: Header|
        0 <= i < j < ls.len() && #[trigger] header_on(ls, i, h) && h.fields is Some
            && #[trigger] is_row_of(ls, i, j) ==> pieces(ls[j].text, h.delimiter) == cells(
            ls[j].text,
            h.delimiter,
        )
}

/// The lines from `i` on are line `i` and the others.
proof fn lemma_rest(ls: Seq<Line>, i: int)
    requires
        0 <= i <= ls.len(),
    ensures
        rest_of(ls, i).len() == ls.len() - i,
        i < ls.len() ==> rest_of(ls, i)[0] == ls[i] && rest_of(ls, i).drop_first() == rest_of(
            ls,
            i + 1,
        ),
{
    if i < ls.len() {
        assert(rest_of(ls, i).drop_first() =~= rest_of(ls, i + 1));
    }
}

/// What is left of the lines, where others were reached.
proof fn lemma_reached(ls: Seq<Line>, i: int, next: int)
    requires
        0 <= i <= next <= ls.len(),
    ensures
        i < next ==> shorter(rest_of(ls, i), rest_of(ls, next)) == rest_of(ls, next),
        no_longer(rest_of(ls, i), rest_of(ls, next)) == rest_of(ls, next),
{
}

// ---------------------------------------------------------------------------
// The same found

/// Whether one value was found by both, behind which the same lines are left.
pub open spec fn same_value(
    d: Out<(Val, int)>,
    t: Out<Run>,
    open: Seq<Text>,
    ls: Seq<Line>,
    i: int,
    deep: int,
    w: Val,
) -> bool {
    &&& d.open == open
    &&& t.open == open
    &&& match d.result {
        Err(m) => t.result == Err::<Run, Text>(m),
        Ok((v, next)) => {
            &&& i <= next <= ls.len()
            &&& deeper(ls, i, next, deep)
            &&& mirrors(v, w)
            &&& t.result == Ok::<Run, Text>(
                Run { marks: flat(w), count: 1, rest: rest_of(ls, next) },
            )
        },
    }
}

/// Whether the same entries were found by both, behind which the same lines are
/// left.
pub open spec fn same_entries(
    d: Out<(Entries, int)>,
    t: Out<Run>,
    open: Seq<Text>,
    ls: Seq<Line>,
    i: int,
    deep: int,
    r: (Entries, Entries),
) -> bool {
    &&& d.open == open
    &&& t.open == open
    &&& match d.result {
        Err(m) => t.result == Err::<Run, Text>(m),
        Ok((o, next)) => {
            &&& i <= next <= ls.len()
            &&& deeper(ls, i, next, deep)
            &&& o == put_all(r.0)
            &&& r.0.len() == r.1.len()
            &&& entries_mirror(r.0, r.1, r.1.len() as int)
            &&& t.result == Ok::<Run, Text>(
                Run { marks: flat_entries(r.1, 0), count: r.1.len(), rest: rest_of(ls, next) },
            )
        },
    }
}

/// Whether the same items were found by both, behind which the same lines are
/// left.
pub open spec fn same_items(
    d: Out<(Seq<Val>, int)>,
    t: Out<Run>,
    open: Seq<Text>,
    ls: Seq<Line>,
    i: int,
    deep: int,
    b: Seq<Val>,
) -> bool {
    &&& d.open == open
    &&& t.open == open
    &&& match d.result {
        Err(m) => t.result == Err::<Run, Text>(m),
        Ok((a, next)) => {
            &&& i <= next <= ls.len()
            &&& deeper(ls, i, next, deep)
            &&& a.len() == b.len()
            &&& items_mirror(a, b, b.len() as int)
            &&& t.result == Ok::<Run, Text>(
                Run { marks: flat_items(b, 0), count: b.len(), rest: rest_of(ls, next) },
            )
        },
    }
}

/// Whether the same entry was found by both, if any, behind which the same lines
/// are left.
pub open spec fn same_field(
    d: Out<(Option<(Text, Val)>, int)>,
    t: Out<Run>,
    open: Seq<Text>,
    ls: Seq<Line>,
    i: int,
    deep: int,
    r: (Text, Val),
) -> bool {
    &&& d.open == open
    &&& t.open == open
    &&& match d.result {
        Err(m) => t.result == Err::<Run, Text>(m),
        Ok((None, next)) => next == i && t.result == Ok::<Run, Text>(
            Run { marks: seq![], count: 0, rest: rest_of(ls, i) },
        ),
        Ok((Some((k, v)), next)) => {
            &&& i <= next <= ls.len()
            &&& deeper(ls, i, next, deep)
            &&& name_mirrors(k, r.0)
            &&& mirrors(v, r.1)
            &&& t.result == Ok::<Run, Text>(
                Run {
                    marks: seq![Mark::Key(r.0)] + flat(r.1),
                    count: 1,
                    rest: rest_of(ls, next),
                },
            )
        },
    }
}

// ---------------------------------------------------------------------------
// Headers, keys and rows

/// The names in a header, and those on a tape.
proof fn lemma_header_names(c: Text, h: Header)
    requires
        array_header(c) == Some(h),
    ensures
        h.key is Some <==> h.raw is Some,
        h.key is Some ==> name_mirrors(h.key->0, h.raw->0),
        h.fields is Some <==> h.raw_fields is Some,
        h.fields is Some ==> h.fields->0.len() == h.raw_fields->0.len() && forall|k: int|
            0 <= k < h.fields->0.len() ==> name_mirrors(#[trigger] h.fields->0[k], h.raw_fields->0[k]),
{
    reveal(array_header);
}

/// The key of a line, and the one on a tape.
proof fn lemma_leading_key(c: Text)
    ensures
        match (leading_key(c), raw_leading_key(c)) {
            (Err(m), Err(n)) => m == n,
            (Ok((k, e)), Ok((r, f))) => name_mirrors(k, r) && e == f,
            _ => false,
        },
{
}

/// The key of a line that ends at a colon, and the one on a tape.
proof fn lemma_key_before(c: Text, k: int)
    ensures
        match (key_before(c, k), raw_key_before(c, k)) {
            (Err(m), Err(n)) => m == n,
            (Ok((x, e)), Ok((r, f))) => name_mirrors(x, r) && e == f,
            _ => false,
        },
{
    lemma_leading_key(c);
}

/// A row of a table from the `k`-th field on, behind `q`, which stands as `b` on
/// the tape.
proof fn lemma_row(
    s: Stores,
    open: Seq<Text>,
    f: Seq<Text>,
    g: Seq<Text>,
    parts: Seq<Text>,
    values: Seq<Val>,
    k: int,
    q: Entries,
    b: Entries,
) -> (r: (Entries, Entries))
    requires
        0 <= k <= f.len(),
        f.len() == g.len(),
        forall|j: int| 0 <= j < f.len() ==> name_mirrors(#[trigger] f[j], g[j]),
        values.len() == parts.len(),
        forall|j: int|
            0 <= j < values.len() ==> #[trigger] values[j] == primitive(s, open, parts[j]).0,
        q.len() == b.len(),
        entries_mirror(q, b, b.len() as int),
    ensures
        row(f, values, k, put_all(q)) == put_all(r.0),
        tape_row(s, open, g, parts, k, flat_entries(b, 0)) == (flat_entries(r.1, 0), open),
        r.0.len() == r.1.len(),
        r.1.len() == b.len() + (f.len() - k),
        entries_mirror(r.0, r.1, r.1.len() as int),
    decreases f.len() - k,
{
    if k < f.len() {
        let v = if k < values.len() {
            values[k]
        } else {
            Val::Null
        };
        let w = if k < parts.len() {
            raw_primitive(s, open, parts[k])
        } else {
            Val::Null
        };
        if k < parts.len() {
            lemma_primitive(s, open, parts[k]);
        }
        assert(mirrors(v, w));
        assert(name_mirrors(f[k], g[k]));
        lemma_put_all_push(q, f[k], v);
        lemma_entries_mirror(q, b, (f[k], v), (g[k], w), b.len() as int);
        lemma_one_entry(b, g[k], w);
        lemma_row(s, open, f, g, parts, values, k + 1, q.push((f[k], v)), b.push((g[k], w)))
    } else {
        (q, b)
    }
}

/// The rows of a table from line `j` on, behind `done`, which stand as `raw` on
/// the tape.
proof fn lemma_table(
    s: Stores,
    open: Seq<Text>,
    ls: Seq<Line>,
    i: int,
    base: int,
    h: Header,
    j: int,
    done: Seq<Val>,
    raw: Seq<Val>,
) -> (r: Seq<Val>)
    requires
        is_orderly(ls),
        0 <= i < j <= ls.len(),
        header_on(ls, i, h),
        h.fields is Some,
        h.raw_fields is Some,
        h.fields->0.len() == h.raw_fields->0.len(),
        forall|k: int|
            0 <= k < h.fields->0.len() ==> name_mirrors(#[trigger] h.fields->0[k], h.raw_fields->0[k]),
        base >= ls[i].depth,
        forall|x: int| i < x < j ==> (#[trigger] ls[x]).depth == base + 1,
        done.len() == raw.len(),
        items_mirror(done, raw, raw.len() as int),
    ensures
        ({
            let (a, next, then) = table_lines(
                s,
                open,
                ls,
                base + 1,
                h.length,
                h.fields->0,
                h.delimiter,
                j,
                done,
            );
            &&& then == open
            &&& j <= next <= ls.len()
            &&& deeper(ls, j, next, base + 1)
            &&& a.len() == r.len()
            &&& items_mirror(a, r, r.len() as int)
            &&& tape_table(
                s,
                open,
                rest_of(ls, j),
                base,
                h.length,
                h.raw_fields->0,
                h.delimiter,
                flat_items(raw, 0),
                raw.len(),
            ) == (Run { marks: flat_items(r, 0), count: r.len(), rest: rest_of(ls, next) }, open)
        }),
    decreases ls.len() - j,
{
    lemma_rest(ls, j);
    if j < ls.len() && done.len() < h.length && ls[j].depth == base + 1 {
        let d = h.delimiter;
        let f = h.fields->0;
        let g = h.raw_fields->0;
        let t = ls[j].text;
        assert(is_row_of(ls, i, j));
        assert(pieces(t, d) == cells(t, d));
        let none: Seq<Val> = seq![];
        lemma_pieces_read(s, open, t, d, 0, none);
        let values = delimited(s, open, t, d, 0, none).0;
        let empty: Entries = seq![];
        assert(flat_entries(empty, 0) =~= seq![]);
        let (q, b) = lemma_row(s, open, f, g, pieces(t, d), values, 0, empty, empty);
        let v = Val::Object(row(f, values, 0, empty));
        let w = Val::Object(b);
        assert(mirrors(v, w));
        lemma_items_push(raw, w, 0);
        lemma_items_mirror(done, raw, v, w, raw.len() as int);
        lemma_table(s, open, ls, i, base, h, j + 1, done.push(v), raw.push(w))
    } else {
        raw
    }
}

// ---------------------------------------------------------------------------
// Lines

/// The entries from line `i` on, behind `q`, which stand as `b` on the tape.
proof fn lemma_object(
    s: Stores,
    open: Seq<Text>,
    ls: Seq<Line>,
    base: int,
    i: int,
    q: Entries,
    b: Entries,
) -> (r: (Entries, Entries))
    requires
        is_orderly(ls),
        0 <= i <= ls.len(),
        q.len() == b.len(),
        entries_mirror(q, b, b.len() as int),
    ensures
        same_entries(
            object_lines(s, open, ls, base, i, put_all(q)),
            tape_object(s, open, rest_of(ls, i), base, flat_entries(b, 0), b.len()),
            open,
            ls,
            i,
            base,
            r,
        ),
    decreases left(ls, i), 4nat,
{
    lemma_rest(ls, i);
    if i >= ls.len() || ls[i].depth < base {
        (q, b)
    } else if ls[i].depth > base {
        lemma_object(s, open, ls, base, i + 1, q, b)
    } else {
        let (rk, w) = lemma_field(s, open, ls, base, i);
        let d = field(s, open, ls, base, i);
        match d.result {
            Err(_) => (q, b),
            Ok((None, _)) => {
                lemma_reached(ls, i, i + 1);
                assert(flat_entries(b, 0) + Seq::<Mark>::empty() =~= flat_entries(b, 0));
                lemma_object(s, open, ls, base, i + 1, q, b)
            },
            Ok((Some((k, v)), next)) => {
                lemma_reached(ls, i, next);
                lemma_put_all_push(q, k, v);
                lemma_entries_mirror(q, b, (k, v), (rk, w), b.len() as int);
                lemma_one_entry(b, rk, w);
                lemma_object(s, open, ls, base, next, q.push((k, v)), b.push((rk, w)))
            },
        }
    }
}

/// The entry on line `i`.
proof fn lemma_field(s: Stores, open: Seq<Text>, ls: Seq<Line>, base: int, i: int) -> (r: (Text, Val))
    requires
        is_orderly(ls),
        0 <= i < ls.len(),
        ls[i].depth <= base,
    ensures
        same_field(
            field(s, open, ls, base, i),
            tape_field(s, open, ls[i].text, rest_of(ls, i + 1), base),
            open,
            ls,
            i + 1,
            base + 1,
            r,
        ),
    decreases left(ls, i), 3nat,
{
    let c = ls[i].text;
    match array_header(c) {
        Some(h) if h.key is Some => {
            lemma_header_names(c, h);
            assert(header_on(ls, i, h));
            let w = lemma_array(s, open, ls, i, base, h);
            (h.raw->0, w)
        },
        _ => match key_colon(c) {
            Some(k) => lemma_key_value(s, open, ls, i, base, k),
            None => (c, Val::Null),
        },
    }
}

/// The entry on line `i`, whose key ends at the colon at `k`.
proof fn lemma_key_value(
    s: Stores,
    open: Seq<Text>,
    ls: Seq<Line>,
    i: int,
    base: int,
    k: int,
) -> (r: (Text, Val))
    requires
        is_orderly(ls),
        0 <= i < ls.len(),
    ensures
        ({
            let d = key_value(s, open, ls, i, base, k);
            let t = tape_key_value(s, open, ls[i].text, k, rest_of(ls, i + 1), base);
            &&& d.open == open
            &&& t.open == open
            &&& match d.result {
                Err(m) => t.result == Err::<Run, Text>(m),
                Ok((key, v, next)) => {
                    &&& i + 1 <= next <= ls.len()
                    &&& deeper(ls, i + 1, next, base + 1)
                    &&& name_mirrors(key, r.0)
                    &&& mirrors(v, r.1)
                    &&& t.result == Ok::<Run, Text>(
                        Run {
                            marks: seq![Mark::Key(r.0)] + flat(r.1),
                            count: 1,
                            rest: rest_of(ls, next),
                        },
                    )
                },
            }
        }),
    decreases left(ls, i), 2nat,
{
    let c = ls[i].text;
    lemma_key_before(c, k);
    lemma_rest(ls, i + 1);
    match raw_key_before(c, k) {
        Err(_) => (c, Val::Null),
        Ok((key, end)) => {
            let rest = trim(c.subrange(end, c.len() as int));
            if rest.len() > 0 {
                (key, lemma_inline(s, open, rest))
            } else if i + 1 < ls.len() && ls[i + 1].depth > base {
                if ls[i + 1].depth == base + 1 && is_item(ls[i + 1].text) {
                    let none: Seq<Val> = seq![];
                    assert(flat_items(none, 0) =~= seq![]);
                    let b = lemma_list(s, open, ls, base, i + 1, i + 1, none, none);
                    (key, Val::Array(b))
                } else {
                    let none: Entries = seq![];
                    assert(flat_entries(none, 0) =~= seq![]);
                    let (q, b) = lemma_object(s, open, ls, base + 1, i + 1, none, none);
                    assert(put_all(none) == none);
                    let ghost o = put_all(q);
                    (key, Val::Object(b))
                }
            } else {
                let none: Entries = seq![];
                assert(flat_entries(none, 0) =~= seq![]);
                assert(flat(Val::Object(none)) =~= seq![Mark::Object(0)]);
                (key, Val::Object(none))
            }
        },
    }
}

/// The list items from line `j` on, behind `done`, which stand as `raw` on the
/// tape. The first of the list stands on line `i`.
proof fn lemma_list(
    s: Stores,
    open: Seq<Text>,
    ls: Seq<Line>,
    base: int,
    i: int,
    j: int,
    done: Seq<Val>,
    raw: Seq<Val>,
) -> (r: Seq<Val>)
    requires
        is_orderly(ls),
        0 <= i < ls.len(),
        i <= j <= ls.len(),
        ls[i].depth == base + 1,
        is_item(ls[i].text),
        deeper(ls, i, j, base + 1),
        done.len() == raw.len(),
        items_mirror(done, raw, raw.len() as int),
    ensures
        same_items(
            list_lines(s, open, ls, base, j, done),
            tape_list(s, open, rest_of(ls, j), base, flat_items(raw, 0), raw.len()),
            open,
            ls,
            j,
            base + 1,
            r,
        ),
    decreases left(ls, j), 4nat,
{
    lemma_rest(ls, j);
    if j >= ls.len() || ls[j].depth < base + 1 {
        raw
    } else if ls[j].depth > base + 1 {
        lemma_list(s, open, ls, base, i, j + 1, done, raw)
    } else {
        assert(is_item(ls[j].text));
        let item = item_text(ls[j].text);
        if is_inline_item(item) {
            let w = lemma_inline(s, open, item);
            let v = inline_value(s, open, item).0;
            lemma_items_push(raw, w, 0);
            lemma_items_mirror(done, raw, v, w, raw.len() as int);
            lemma_list(s, open, ls, base, i, j + 1, done.push(v), raw.push(w))
        } else {
            let (q, b) = lemma_list_item(s, open, ls, j, base);
            let d = list_item(s, open, ls, j, base);
            match d.result {
                Err(_) => raw,
                Ok((o, next)) => {
                    let v = Val::Object(o);
                    let w = Val::Object(b);
                    assert(mirrors(v, w));
                    lemma_reached(ls, j, next);
                    lemma_items_push(raw, w, 0);
                    lemma_items_mirror(done, raw, v, w, raw.len() as int);
                    lemma_list(s, open, ls, base, i, next, done.push(v), raw.push(w))
                },
            }
        }
    }
}

/// The array that the header `h` on line `i` announces.
proof fn lemma_array(
    s: Stores,
    open: Seq<Text>,
    ls: Seq<Line>,
    i: int,
    base: int,
    h: Header,
) -> (w: Val)
    requires
        is_orderly(ls),
        0 <= i < ls.len(),
        header_on(ls, i, h),
        base >= ls[i].depth,
    ensures
        same_value(
            array_lines(s, open, ls, i, base, h),
            tape_array(s, open, rest_of(ls, i + 1), base, h),
            open,
            ls,
            i + 1,
            base + 1,
            w,
        ),
    decreases left(ls, i), 1nat,
{
    if array_header(ls[i].text) == Some(h) {
        lemma_header_names(ls[i].text, h);
    } else {
        lemma_header_names(item_text(ls[i].text), h);
    }
    let none: Seq<Val> = seq![];
    assert(flat_items(none, 0) =~= seq![]);
    if h.length == 0 {
        assert(flat(Val::Array(none)) =~= seq![Mark::Array(0)]);
        Val::Array(none)
    } else {
        match h.fields {
            None => match h.inline {
                Some(x) => lemma_delimited(s, open, x, h.delimiter),
                None => {
                    let b = lemma_expanded(s, open, ls, base, h.length, i + 1, none, none);
                    Val::Array(b)
                },
            },
            Some(_) => {
                let b = lemma_table(s, open, ls, i, base, h, i + 1, none, none);
                Val::Array(b)
            },
        }
    }
}

/// The list items from line `j` on, at most `n` in all, behind `done`, which
/// stand as `raw` on the tape.
proof fn lemma_expanded(
    s: Stores,
    open: Seq<Text>,
    ls: Seq<Line>,
    base: int,
    n: nat,
    j: int,
    done: Seq<Val>,
    raw: Seq<Val>,
) -> (r: Seq<Val>)
    requires
        is_orderly(ls),
        0 <= j <= ls.len(),
        done.len() == raw.len(),
        items_mirror(done, raw, raw.len() as int),
    ensures
        same_items(
            expanded_lines(s, open, ls, base, n, j, done),
            tape_expanded(s, open, rest_of(ls, j), base, n, flat_items(raw, 0), raw.len()),
            open,
            ls,
            j,
            base + 1,
            r,
        ),
    decreases left(ls, j), 4nat,
{
    lemma_rest(ls, j);
    if j >= ls.len() || done.len() >= n || ls[j].depth != base + 1 {
        raw
    } else if !is_item(ls[j].text) {
        lemma_expanded(s, open, ls, base, n, j + 1, done, raw)
    } else {
        let item = item_text(ls[j].text);
        lemma_rest(ls, j + 1);
        let at = item_base(base + 1, depth_at(ls, j + 1));
        match array_header(item) {
            Some(h) if h.key is None => match h.inline {
                Some(x) => {
                    let w = lemma_delimited(s, open, x, h.delimiter);
                    let v = Val::Array(delimited(s, open, x, h.delimiter, 0, seq![]).0);
                    lemma_items_push(raw, w, 0);
                    lemma_items_mirror(done, raw, v, w, raw.len() as int);
                    lemma_expanded(s, open, ls, base, n, j + 1, done.push(v), raw.push(w))
                },
                None => {
                    assert(header_on(ls, j, h));
                    let w = lemma_array(s, open, ls, j, at, h);
                    let d = array_lines(s, open, ls, j, at, h);
                    assert(depth_at(rest_of(ls, j + 1), 0) == depth_at(ls, j + 1));
                    match d.result {
                        Err(_) => raw,
                        Ok((v, next)) => {
                            lemma_reached(ls, j, next);
                            lemma_items_push(raw, w, 0);
                            lemma_items_mirror(done, raw, v, w, raw.len() as int);
                            lemma_expanded(s, open, ls, base, n, next, done.push(v), raw.push(w))
                        },
                    }
                },
            },
            _ => if is_inline_item(item) {
                let w = lemma_inline(s, open, item);
                let v = inline_value(s, open, item).0;
                lemma_items_push(raw, w, 0);
                lemma_items_mirror(done, raw, v, w, raw.len() as int);
                lemma_expanded(s, open, ls, base, n, j + 1, done.push(v), raw.push(w))
            } else {
                let (q, b) = lemma_list_item(s, open, ls, j, base);
                let d = list_item(s, open, ls, j, base);
                match d.result {
                    Err(_) => raw,
                    Ok((o, next)) => {
                        let v = Val::Object(o);
                        let w = Val::Object(b);
                        assert(mirrors(v, w));
                        lemma_reached(ls, j, next);
                        lemma_items_push(raw, w, 0);
                        lemma_items_mirror(done, raw, v, w, raw.len() as int);
                        lemma_expanded(s, open, ls, base, n, next, done.push(v), raw.push(w))
                    },
                }
            },
        }
    }
}

/// One entry, put under its key.
proof fn lemma_one_put(k: Text, v: Val, rk: Text, w: Val)
    requires
        name_mirrors(k, rk),
        mirrors(v, w),
    ensures
        put_all(seq![(k, v)]) == seq![(k, v)],
        entries_mirror(seq![(k, v)], seq![(rk, w)], 1),
        flat_entries(seq![(rk, w)], 0) == seq![Mark::Key(rk)] + flat(w),
{
    let none: Entries = seq![];
    lemma_key_index(none, k);
    lemma_put_all_push(none, k, v);
    assert(none.push((k, v)) =~= seq![(k, v)]);
    assert(put(none, k, v) =~= seq![(k, v)]);
    reveal_with_fuel(entries_mirror, 2);
    lemma_one_entry(none, rk, w);
    assert(none.push((rk, w)) =~= seq![(rk, w)]);
    assert(flat_entries(none, 0) =~= seq![]);
    assert(Seq::<Mark>::empty() + (seq![Mark::Key(rk)] + flat(w)) =~= seq![Mark::Key(rk)] + flat(w));
}

/// The entry that the list item on line `i` begins with.
proof fn lemma_item_head(s: Stores, open: Seq<Text>, ls: Seq<Line>, i: int, base: int) -> (r: (
    Entries,
    Entries,
))
    requires
        is_orderly(ls),
        0 <= i < ls.len(),
        ls[i].depth == base + 1,
        is_item(ls[i].text),
    ensures
        same_entries(
            item_head(s, open, ls, i, base),
            tape_item_head(s, open, item_text(ls[i].text), rest_of(ls, i + 1), base),
            open,
            ls,
            i + 1,
            base + 2,
            r,
        ),
    decreases left(ls, i), 2nat,
{
    let item = item_text(ls[i].text);
    let none: Entries = seq![];
    assert(flat_entries(none, 0) =~= seq![]);
    lemma_rest(ls, i + 1);
    match array_header(item) {
        Some(h) => {
            lemma_header_names(item, h);
            match h.raw {
                Some(rk) => {
                    let at = item_base(base + 1, depth_at(ls, i + 1));
                    assert(depth_at(rest_of(ls, i + 1), 0) == depth_at(ls, i + 1));
                    assert(header_on(ls, i, h));
                    let w = lemma_array(s, open, ls, i, at, h);
                    let d = array_lines(s, open, ls, i, at, h);
                    match d.result {
                        Err(_) => (none, none),
                        Ok((v, next)) => {
                            lemma_one_put(h.key->0, v, rk, w);
                            (seq![(h.key->0, v)], seq![(rk, w)])
                        },
                    }
                },
                None => (none, none),
            }
        },
        None => {
            lemma_leading_key(item);
            match raw_leading_key(item) {
                Err(_) => (none, none),
                Ok((rk, end)) => {
                    let k = leading_key(item)->Ok_0.0;
                    let (v, w) = lemma_item_value(
                        s,
                        open,
                        ls,
                        i,
                        base,
                        trim(item.subrange(end, item.len() as int)),
                        k,
                        rk,
                        end,
                    );
                    if item_head(s, open, ls, i, base).result is Ok {
                        lemma_one_put(k, v, rk, w);
                    }
                    (seq![(k, v)], seq![(rk, w)])
                },
            }
        },
    }
}

/// The value of the entry that the list item on line `i` begins with.
proof fn lemma_item_value(
    s: Stores,
    open: Seq<Text>,
    ls: Seq<Line>,
    i: int,
    base: int,
    rest: Text,
    k: Text,
    rk: Text,
    end: int,
) -> (r: (Val, Val))
    requires
        is_orderly(ls),
        0 <= i < ls.len(),
        array_header(item_text(ls[i].text)) is None,
        leading_key(item_text(ls[i].text)) == Ok::<(Text, int), Text>((k, end)),
        rest == trim(item_text(ls[i].text).subrange(end, item_text(ls[i].text).len() as int)),
    ensures
        ({
            let d = item_head(s, open, ls, i, base);
            let t = tape_item_value(s, open, rest, rest_of(ls, i + 1), base);
            &&& d.open == open
            &&& t.open == open
            &&& match d.result {
                Err(m) => t.result == Err::<Run, Text>(m),
                Ok((o, next)) => {
                    &&& i + 1 <= next <= ls.len()
                    &&& deeper(ls, i + 1, next, base + 2)
                    &&& o == seq![(k, r.0)]
                    &&& mirrors(r.0, r.1)
                    &&& t.result == Ok::<Run, Text>(
                        Run { marks: flat(r.1), count: 1, rest: rest_of(ls, next) },
                    )
                },
            }
        }),
    decreases left(ls, i), 1nat,
{
    let none: Entries = seq![];
    assert(flat_entries(none, 0) =~= seq![]);
    lemma_rest(ls, i + 1);
    if rest.len() > 0 {
        let w = lemma_inline(s, open, rest);
        (inline_value(s, open, rest).0, w)
    } else if i + 1 < ls.len() && ls[i + 1].depth >= base + 2 {
        let below = item_base(base + 1, ls[i + 1].depth) + 1;
        let (q, b) = lemma_object(s, open, ls, below, i + 1, none, none);
        assert(put_all(none) == none);
        let v = Val::Object(put_all(q));
        let w = Val::Object(b);
        (v, w)
    } else {
        assert(flat(Val::Object(none)) =~= seq![Mark::Object(0)]);
        (Val::Object(none), Val::Object(none))
    }
}

/// The object that the list item on line `i` stands for.
proof fn lemma_list_item(s: Stores, open: Seq<Text>, ls: Seq<Line>, i: int, base: int) -> (r: (
    Entries,
    Entries,
))
    requires
        is_orderly(ls),
        0 <= i < ls.len(),
        ls[i].depth == base + 1,
        is_item(ls[i].text),
    ensures
        ({
            let d = list_item(s, open, ls, i, base);
            let t = tape_list_item(s, open, item_text(ls[i].text), rest_of(ls, i + 1), base);
            &&& d.open == open
            &&& t.open == open
            &&& match d.result {
                Err(m) => t.result == Err::<Run, Text>(m),
                Ok((o, next)) => {
                    &&& i + 1 <= next <= ls.len()
                    &&& deeper(ls, i + 1, next, base + 2)
                    &&& o == put_all(r.0)
                    &&& r.0.len() == r.1.len()
                    &&& entries_mirror(r.0, r.1, r.1.len() as int)
                    &&& t.result == Ok::<Run, Text>(
                        Run {
                            marks: flat(Val::Object(r.1)),
                            count: 1,
                            rest: rest_of(ls, next),
                        },
                    )
                },
            }
        }),
    decreases left(ls, i), 3nat,
{
    let (q, b) = lemma_item_head(s, open, ls, i, base);
    let d = item_head(s, open, ls, i, base);
    match d.result {
        Err(_) => (q, b),
        Ok((o, next)) => {
            lemma_reached(ls, i + 1, next);
            lemma_more(s, open, ls, base + 2, next, q, b)
        },
    }
}

/// The entries of a list item from line `i` on, behind `q`, which stand as `b` on
/// the tape.
proof fn lemma_more(
    s: Stores,
    open: Seq<Text>,
    ls: Seq<Line>,
    depth: int,
    i: int,
    q: Entries,
    b: Entries,
) -> (r: (Entries, Entries))
    requires
        is_orderly(ls),
        0 <= i <= ls.len(),
        q.len() == b.len(),
        entries_mirror(q, b, b.len() as int),
    ensures
        same_entries(
            more_fields(s, open, ls, depth, i, put_all(q)),
            tape_more(s, open, rest_of(ls, i), depth, flat_entries(b, 0), b.len()),
            open,
            ls,
            i,
            depth,
            r,
        ),
    decreases left(ls, i), 4nat,
{
    lemma_rest(ls, i);
    if i >= ls.len() || ls[i].depth < depth {
        (q, b)
    } else if ls[i].depth > depth {
        lemma_more(s, open, ls, depth, i + 1, q, b)
    } else if is_item(ls[i].text) {
        (q, b)
    } else {
        let (rk, w) = lemma_field(s, open, ls, depth, i);
        let d = field(s, open, ls, depth, i);
        match d.result {
            Err(_) => (q, b),
            Ok((None, _)) => {
                lemma_reached(ls, i, i + 1);
                assert(flat_entries(b, 0) + Seq::<Mark>::empty() =~= flat_entries(b, 0));
                lemma_more(s, open, ls, depth, i + 1, q, b)
            },
            Ok((Some((k, v)), next)) => {
                lemma_reached(ls, i, next);
                lemma_put_all_push(q, k, v);
                lemma_entries_mirror(q, b, (k, v), (rk, w), b.len() as int);
                lemma_one_entry(b, rk, w);
                lemma_more(s, open, ls, depth, next, q.push((k, v)), b.push((rk, w)))
            },
        }
    }
}

// ---------------------------------------------------------------------------
// Documents

/// Whether nodes are those of a value that was read, but that texts may keep
/// their escapes, and an object has every entry that is written. Where there are
/// no escapes, and no key twice, they are the nodes of the value.
pub open spec fn is_taped(v: Val, m: Seq<Mark>) -> bool {
    exists|w: Val|
        {
            &&& m == #[trigger] flat(w)
            &&& mirrors(v, w)
            &&& no_escapes(w) && well_keyed(w) ==> v == w
        }
}

/// A value on a tape.
proof fn lemma_taped(v: Val, w: Val)
    requires
        mirrors(v, w),
    ensures
        is_taped(v, flat(w)),
{
    if no_escapes(w) && well_keyed(w) {
        without_escapes_a_tape_is_exact(v, w);
    }
}

/// A tape of lines holds the nodes of the value that a decoder reads from them, or
/// both say the same against them, where the lines are orderly, and the first has
/// a colon or is the only one.
pub proof fn a_tape_reads_lines_like_a_decoder(s: Stores, open: Seq<Text>, ls: Seq<Line>)
    requires
        is_orderly(ls),
        ls.len() > 1 ==> has_colon(ls[0].text),
    ensures
        ({
            let d = document(s, open, ls);
            let t = tape_document(s, open, ls);
            &&& t.open == d.open
            &&& match d.result {
                Ok(v) => t.result matches Ok(m) && is_taped(v, m),
                Err(e) => t.result == Err::<Seq<Mark>, Text>(e),
            }
        }),
{
    reveal(tape_root);
    reveal(root_array);
    reveal(fields_or_token);
    let none: Entries = seq![];
    assert(flat_entries(none, 0) =~= seq![]);
    if ls.len() == 0 || (ls.len() == 1 && ls[0].text == "{}"@) {
        assert(flat(Val::Object(none)) =~= seq![Mark::Object(0)]);
        lemma_taped(Val::Object(none), Val::Object(none));
    } else {
        lemma_rest(ls, 0);
        assert(rest_of(ls, 0) =~= ls);
        crate::roundtrip::lemma_empty_no_colon();
        match array_header(ls[0].text) {
            Some(h) if h.key is None => {
                assert(header_on(ls, 0, h));
                let w = lemma_array(s, open, ls, 0, ls[0].depth, h);
                let d = array_lines(s, open, ls, 0, ls[0].depth, h);
                if let Ok((v, _)) = d.result {
                    lemma_taped(v, w);
                }
            },
            _ => {
                if ls.len() == 1 && !has_colon(ls[0].text) {
                    lemma_primitive(s, open, ls[0].text);
                    lemma_taped(
                        primitive(s, open, ls[0].text).0,
                        raw_primitive(s, open, ls[0].text),
                    );
                } else {
                    let (q, b) = lemma_object(s, open, ls, 0, 0, none, none);
                    assert(put_all(none) == none);
                    let d = object_lines(s, open, ls, 0, 0, none);
                    if let Ok((o, _)) = d.result {
                        assert(mirrors(Val::Object(o), Val::Object(b)));
                        lemma_taped(Val::Object(o), Val::Object(b));
                    }
                }
            },
        }
    }
}

// ---------------------------------------------------------------------------
// Texts

/// White space at the end is trimmed.
proof fn lemma_trim_return(t: Text, c: char)
    requires
        is_space(c),
    ensures
        trim(t.push(c)) == trim(t),
    decreases t.len(),
{
    let u = t.push(c);
    if t.len() == 0 {
        assert(u.subrange(1, 1) =~= seq![]);
        assert(t =~= seq![]);
        assert(trim_start(u) == trim_start(u.subrange(1, u.len() as int)));
    } else if is_space(t[0]) {
        let rest = t.subrange(1, t.len() as int);
        assert(u.subrange(1, u.len() as int) =~= rest.push(c));
        lemma_trim_return(rest, c);
    } else {
        assert(u.subrange(0, u.len() - 1) =~= t);
    }
}

/// A character behind a text that is no space leaves the spaces before it.
proof fn lemma_indentation_push(t: Text, c: char)
    requires
        c != ' ',
    ensures
        indentation(t.push(c)) == indentation(t),
    decreases t.len(),
{
    let u = t.push(c);
    if t.len() > 0 && t[0] == ' ' {
        let rest = t.subrange(1, t.len() as int);
        assert(u.subrange(1, u.len() as int) =~= rest.push(c));
        lemma_indentation_push(rest, c);
    }
}

/// The ending of a line does not tell.
proof fn lemma_kept_line(t: Text, indent: nat)
    ensures
        kept_line(drop_return(t), indent) == kept_line(t, indent),
{
    if t.len() > 0 && t[t.len() - 1] == '\r' {
        let u = t.subrange(0, t.len() - 1);
        assert(t =~= u.push('\r'));
        assert(is_space('\r'));
        lemma_trim_return(u, '\r');
        lemma_indentation_push(u, '\r');
    }
}

/// The lines from the `i`-th on that hold a value.
pub open spec fn kept_lines(ls: Seq<Text>, indent: nat, i: int) -> Seq<Line>
    decreases ls.len() - i,
{
    if 0 <= i < ls.len() {
        kept_line(ls[i], indent) + kept_lines(ls, indent, i + 1)
    } else {
        seq![]
    }
}

/// The lines behind a line.
proof fn lemma_kept_behind(a: Text, b: Seq<Text>, indent: nat, i: int)
    requires
        0 <= i <= b.len(),
    ensures
        kept_lines(seq![a] + b, indent, i + 1) == kept_lines(b, indent, i),
    decreases b.len() - i,
{
    if i < b.len() {
        assert((seq![a] + b)[i + 1] == b[i]);
        lemma_kept_behind(a, b, indent, i + 1);
    }
}

/// The lines that a tape goes through are those that hold a value.
proof fn lemma_kept(s: Text, indent: nat)
    ensures
        kept(s, indent) == kept_lines(lines(s), indent, 0),
    decreases s.len(),
{
    if s.len() > 0 {
        lemma_find_from(s, '\n', 0);
        match find(s, '\n') {
            Some(k) => {
                let first = s.subrange(0, k);
                let rest = s.subrange(k + 1, s.len() as int);
                lemma_kept(rest, indent);
                lemma_kept_line(first, indent);
                lemma_kept_behind(drop_return(first), lines(rest), indent, 0);
                assert(lines(s)[0] == drop_return(first));
            },
            None => {
                assert(lines(s) == seq![s]);
                assert(kept_lines(seq![s], indent, 1) =~= seq![]);
                assert(kept_line(s, indent) + kept_lines(seq![s], indent, 1) =~= kept_line(
                    s,
                    indent,
                ));
            },
        }
    }
}

/// A silent line is no definition.
proof fn lemma_silent_kind(t: Text)
    requires
        is_silent(t),
    ensures
        definition_kind(t) is None,
{
    reveal_strlit("s:");
    reveal_strlit("r:");
    reveal_strlit("sec:");
    reveal_strlit("@@");
    reveal_strlit("@use ");
    if starts_with(t, "s:"@) {
        assert(t.subrange(0, 2)[0] == t[0]);
    }
    if starts_with(t, "r:"@) {
        assert(t.subrange(0, 2)[0] == t[0]);
    }
    if starts_with(t, "sec:"@) {
        assert(t.subrange(0, 4)[0] == t[0]);
    }
    if starts_with(t, "@@"@) {
        assert(t.subrange(0, 2)[0] == t[0]);
    }
    if starts_with(t, "@use "@) {
        assert(t.subrange(0, 5)[0] == t[0]);
    }
}

/// A decoder takes in the definitions that a tape takes in, and keeps the same
/// lines.
proof fn lemma_read_lines(k: Known, ls: Seq<Text>, indent: nat, i: int, done: Seq<Line>)
    requires
        0 <= i <= ls.len(),
    ensures
        read_lines(k, ls, indent, i, done) == (
            prescanned(k, ls, i),
            done + kept_lines(ls, indent, i),
        ),
    decreases ls.len() - i,
{
    if i < ls.len() {
        let t = trim(ls[i]);
        let more = kept_lines(ls, indent, i + 1);
        if is_silent(t) {
            lemma_silent_kind(t);
            lemma_read_lines(k, ls, indent, i + 1, done);
            assert(Seq::<Line>::empty() + more =~= more);
        } else {
            match definition_kind(t) {
                Some(d) => {
                    lemma_read_lines(define(k, t, d), ls, indent, i + 1, done);
                    assert(Seq::<Line>::empty() + more =~= more);
                },
                None => {
                    let l = Line { depth: depth_of(indentation(ls[i]), indent), text: t };
                    lemma_read_lines(k, ls, indent, i + 1, done.push(l));
                    assert(done.push(l) + more =~= done + (seq![l] + more));
                },
            }
        }
    } else {
        assert(done + Seq::<Line>::empty() =~= done);
    }
}

/// The lines of a document that hold its value, as a new reader finds them.
pub open spec fn value_lines(input: Text) -> Seq<Line> {
    kept_lines(lines(input), detected_indent(input, 1), 0)
}

/// A tape of a document holds the nodes of the value that a decoder reads from it,
/// or both say the same against it: texts may keep their escapes on the tape, and
/// an object has every entry there that is written, but where there are no escapes
/// and no key twice, the nodes are those of the value. This holds of every
/// document that is minified, and of every other whose lines are orderly and begin
/// with one that has a colon, or are no more than one. Both have the same
/// definitions from then on, where the document is not minified.
pub proof fn a_tape_reads_a_document_like_a_decoder(input: Text)
    requires
        !is_minified(input) ==> is_orderly(value_lines(input)),
        !is_minified(input) && value_lines(input).len() > 1 ==> has_colon(value_lines(input)[0].text),
    ensures
        ({
            let t = tape_step(new_setting(), input);
            let d = decode_step(new_setting(), input);
            &&& match decode_text(input) {
                Ok(v) => t.0 matches Ok(m) && is_taped(v, m),
                Err(e) => t.0 == Err::<Seq<Mark>, Text>(e),
            }
            &&& !is_minified(input) ==> t.1 == d.1
        }),
{
    if is_minified(input) {
        if let Ok(v) = decode_text(input) {
            lemma_taped(v, v);
        }
    } else {
        let k = new_setting().known;
        let indent = detected_indent(input, 1);
        lemma_kept(input, indent);
        lemma_read_lines(k, lines(input), indent, 0, seq![]);
        let ls = value_lines(input);
        assert(Seq::<Line>::empty() + ls =~= ls);
        let then = prescanned(k, lines(input), 0);
        a_tape_reads_lines_like_a_decoder(then.stores, then.open, ls);
    }
}

/// Whether a text holds no braces and no brackets.
pub open spec fn is_flat_row(t: Text) -> bool {
    forall|i: int|
        0 <= i < t.len() ==> (#[trigger] t[i]) != '{' && t[i] != '}' && t[i] != '[' && t[i] != ']'
}

/// Without braces and brackets pieces end where cells end.
proof fn lemma_ends_agree(t: Text, d: char, i: int, p: Place)
    requires
        0 <= i <= t.len(),
        is_flat_row(t),
        p.brace == 0,
        p.bracket == 0,
    ensures
        piece_end(t, d, i, p) == cell_end(t, d, i, p),
    decreases t.len() - i,
{
    if i < t.len() {
        assert(t[i] != '{' && t[i] != '}' && t[i] != '[' && t[i] != ']');
        lemma_ends_agree(t, d, i + 1, step(p, t[i]));
    }
}

/// Without braces and brackets the pieces of a text are its cells.
proof fn lemma_cells(t: Text, d: char)
    requires
        is_flat_row(t),
    ensures
        cut_pieces(t, d) == cells(t, d),
    decreases t.len(),
{
    lemma_ends_agree(t, d, 0, outside());
    lemma_piece_end(t, d, 0, outside());
    let e = piece_end(t, d, 0, outside());
    if 0 <= e < t.len() {
        let rest = t.subrange(e + 1, t.len() as int);
        assert forall|i: int| 0 <= i < rest.len() implies (#[trigger] rest[i]) != '{' && rest[i]
            != '}' && rest[i] != '[' && rest[i] != ']' by {
            assert(rest[i] == t[e + 1 + i]);
        }
        lemma_cells(rest, d);
    }
}

/// Where no line that is not empty has a brace or a bracket in it behind a header
/// with fields, its delimiters are outside of these: lines are orderly where that
/// holds of rows, and where behind a list item nothing but list items stands at
/// its depth.
pub proof fn flat_rows_are_orderly(ls: Seq<Line>)
    requires
        forall|i: int, j: int|
            0 <= i < j < ls.len() && is_item((#[trigger] ls[i]).text) && (#[trigger] ls[j]).depth
                == ls[i].depth && deeper(ls, i, j, ls[i].depth) ==> is_item(ls[j].text),
        forall|i: int, j: int, h: Header|
            0 <= i < j < ls.len() && #[trigger] header_on(ls, i, h) && h.fields is Some
                && #[trigger] is_row_of(ls, i, j) ==> is_flat_row(ls[j].text) && ls[j].text.len() > 0,
    ensures
        is_orderly(ls),
{
    assert forall|i: int, j: int, h: Header|
        0 <= i < j < ls.len() && #[trigger] header_on(ls, i, h) && h.fields is Some
            && #[trigger] is_row_of(ls, i, j) implies pieces(ls[j].text, h.delimiter) == cells(
        ls[j].text,
        h.delimiter,
    ) by {
        lemma_cells(ls[j].text, h.delimiter);
    }
}

} // verus!
