//! Every tape is one value.

use vstd::prelude::*;
use crate::decoder::{
    depth_at, is_inline_item, is_item, is_minified, item_base, item_text, Out, Setting,
};
use crate::lines::{array_header, bare_key, detected_indent, Header, Line};
use crate::scan::{
    brace_content, bracket_close, key_colon, lemma_brace_span, lemma_key_colon, lemma_pieces,
    outside, pieces,
};
use crate::schema_registry::Stores;
use crate::tape::{
    as_array, as_object, cells, fields_or_token, flat, flat_entries, flat_items, kept, keyed,
    no_longer, plain_mark, prescanned, raw_key_before, raw_leading_key, root_array, shorter,
    tape_array, tape_delimited, tape_document, tape_entries, tape_expanded, tape_field, tape_inline,
    tape_item_head, tape_item_value, tape_key_value, tape_list, tape_list_item, tape_more,
    tape_object, tape_pieces, tape_primitive, tape_root, tape_row, tape_step, tape_table, Mark, Run,
};
use crate::text::{lemma_trim_len, lines, trim, Text};
use crate::tokens::{is_reference, reference};
use crate::value::{lemma_entry_smaller, lemma_item_smaller, Entries, Val};

verus! {

// ---------------------------------------------------------------------------
// Nodes that belong together

/// Whether nodes are those of one value.
#[verifier::opaque]
pub open spec fn is_whole(m: Seq<Mark>) -> bool {
    exists|v: Val| #[trigger] flat(v) == m
}

/// Whether nodes are those of `n` items.
#[verifier::opaque]
pub open spec fn are_items(m: Seq<Mark>, n: nat) -> bool {
    exists|a: Seq<Val>| a.len() == n && #[trigger] flat_items(a, 0) == m
}

/// Whether nodes are those of `n` entries.
#[verifier::opaque]
pub open spec fn are_entries(m: Seq<Mark>, n: nat) -> bool {
    exists|o: Entries| o.len() == n && #[trigger] flat_entries(o, 0) == m
}

/// Whether nodes that were read are those of one value.
pub open spec fn reads_whole(t: Out<Run>) -> bool {
    t.result matches Ok(r) ==> is_whole(r.marks)
}

/// Whether nodes that were read are those of as many items as were counted.
pub open spec fn reads_items(t: Out<Run>) -> bool {
    t.result matches Ok(r) ==> are_items(r.marks, r.count)
}

/// Whether nodes that were read are those of as many entries as were counted.
pub open spec fn reads_entries(t: Out<Run>) -> bool {
    t.result matches Ok(r) ==> are_entries(r.marks, r.count)
}

/// The nodes of a value are those of one value.
proof fn lemma_whole(v: Val)
    ensures
        is_whole(flat(v)),
{
    reveal(is_whole);
}

/// The nodes of a value that has no parts.
proof fn lemma_single(m: Mark)
    requires
        m !is Key,
        m matches Mark::Array(n) ==> n == 0,
        m matches Mark::Object(n) ==> n == 0,
    ensures
        is_whole(seq![m]),
{
    let v = match m {
        Mark::Null => Val::Null,
        Mark::Bool(b) => Val::Bool(b),
        Mark::Integer(n) => Val::Integer(n),
        Mark::Float(t) => Val::Float(t),
        Mark::Str(t) => Val::Str(t),
        Mark::Array(_) => Val::Array(seq![]),
        _ => Val::Object(seq![]),
    };
    lemma_whole(v);
    assert(flat(v) =~= seq![m]);
}

/// No items and no entries.
proof fn lemma_none()
    ensures
        are_items(seq![], 0),
        are_entries(seq![], 0),
{
    reveal(are_items);
    reveal(are_entries);
    let a = Seq::<Val>::empty();
    let o: Entries = seq![];
    assert(flat_items(a, 0) =~= seq![]);
    assert(flat_entries(o, 0) =~= seq![]);
}

/// The nodes of items with one more behind them.
pub proof fn lemma_items_push(a: Seq<Val>, v: Val, i: int)
    requires
        0 <= i <= a.len(),
    ensures
        flat_items(a.push(v), i) == flat_items(a, i) + flat(v),
    decreases a.len() - i,
{
    let b = a.push(v);
    if i < a.len() {
        lemma_items_push(a, v, i + 1);
        assert(b[i] == a[i]);
        assert(flat(a[i]) + (flat_items(a, i + 1) + flat(v)) =~= flat(a[i]) + flat_items(a, i + 1)
            + flat(v));
    } else {
        assert(b[i] == v);
        assert(flat_items(b, i + 1) =~= seq![]);
        assert(flat_items(b, i) =~= flat(v));
        assert(flat_items(a, i) + flat(v) =~= flat(v));
    }
}

/// The nodes of entries with others behind them.
pub proof fn lemma_entries_concat(o: Entries, p: Entries, i: int)
    requires
        0 <= i <= o.len(),
    ensures
        flat_entries(o + p, i) == flat_entries(o, i) + flat_entries(p, 0),
    decreases o.len() - i,
{
    let b = o + p;
    if i < o.len() {
        lemma_entries_concat(o, p, i + 1);
        assert(b[i] == o[i]);
        let x = seq![Mark::Key(o[i].0)] + flat(o[i].1);
        assert(x + (flat_entries(o, i + 1) + flat_entries(p, 0)) =~= x + flat_entries(o, i + 1)
            + flat_entries(p, 0));
    } else {
        lemma_entries_shift(o, p, 0);
        assert(flat_entries(o, i) + flat_entries(p, 0) =~= flat_entries(p, 0));
    }
}

/// The nodes of entries that stand behind others.
proof fn lemma_entries_shift(o: Entries, p: Entries, i: int)
    requires
        0 <= i <= p.len(),
    ensures
        flat_entries(o + p, o.len() + i) == flat_entries(p, i),
    decreases p.len() - i,
{
    if i < p.len() {
        assert((o + p)[o.len() + i] == p[i]);
        lemma_entries_shift(o, p, i + 1);
    }
}

/// Items and one more.
proof fn lemma_one_more(m: Seq<Mark>, n: nat, x: Seq<Mark>)
    requires
        are_items(m, n),
        is_whole(x),
    ensures
        are_items(m + x, n + 1),
{
    reveal(are_items);
    reveal(is_whole);
    let a = choose|a: Seq<Val>| a.len() == n && #[trigger] flat_items(a, 0) == m;
    let v = choose|v: Val| #[trigger] flat(v) == x;
    lemma_items_push(a, v, 0);
    assert(a.push(v).len() == n + 1);
}

/// Entries and others behind them.
proof fn lemma_more_entries(m: Seq<Mark>, n: nat, x: Seq<Mark>, k: nat)
    requires
        are_entries(m, n),
        are_entries(x, k),
    ensures
        are_entries(m + x, n + k),
{
    reveal(are_entries);
    let o = choose|o: Entries| o.len() == n && #[trigger] flat_entries(o, 0) == m;
    let p = choose|p: Entries| p.len() == k && #[trigger] flat_entries(p, 0) == x;
    lemma_entries_concat(o, p, 0);
    assert((o + p).len() == n + k);
}

/// One entry.
proof fn lemma_one_entry(key: Text, x: Seq<Mark>)
    requires
        is_whole(x),
    ensures
        are_entries(seq![Mark::Key(key)] + x, 1),
{
    reveal(are_entries);
    reveal(is_whole);
    let v = choose|v: Val| #[trigger] flat(v) == x;
    let o: Entries = seq![(key, v)];
    assert(flat_entries(o, 1) =~= seq![]);
    assert(flat_entries(o, 0) =~= seq![Mark::Key(key)] + x);
    assert(o.len() == 1);
}

/// Items with the node that an array begins with.
proof fn lemma_array(m: Seq<Mark>, n: nat)
    requires
        are_items(m, n),
    ensures
        is_whole(seq![Mark::Array(n)] + m),
{
    reveal(are_items);
    let a = choose|a: Seq<Val>| a.len() == n && #[trigger] flat_items(a, 0) == m;
    lemma_whole(Val::Array(a));
}

/// Entries with the node that an object begins with.
proof fn lemma_object(m: Seq<Mark>, n: nat)
    requires
        are_entries(m, n),
    ensures
        is_whole(seq![Mark::Object(n)] + m),
{
    reveal(are_entries);
    let o = choose|o: Entries| o.len() == n && #[trigger] flat_entries(o, 0) == m;
    lemma_whole(Val::Object(o));
}

/// An array that was read.
proof fn lemma_as_array(t: Out<Run>)
    requires
        reads_items(t),
    ensures
        reads_whole(as_array(t)),
{
    if let Ok(r) = t.result {
        lemma_array(r.marks, r.count);
    }
}

/// An object that was read.
proof fn lemma_as_object(t: Out<Run>)
    requires
        reads_entries(t),
    ensures
        reads_whole(as_object(t)),
{
    if let Ok(r) = t.result {
        lemma_object(r.marks, r.count);
    }
}

/// An entry that was read.
proof fn lemma_keyed(key: Text, t: Out<Run>)
    requires
        reads_whole(t),
    ensures
        reads_entries(keyed(key, t)),
{
    if let Ok(r) = t.result {
        lemma_one_entry(key, r.marks);
    }
}

// ---------------------------------------------------------------------------
// Tokens

/// The node of a token that is no reference.
proof fn lemma_plain(t: Text)
    ensures
        is_whole(seq![plain_mark(t)]),
{
    lemma_single(plain_mark(t));
}

/// The nodes of a primitive are those of one value.
proof fn lemma_primitive(s: Stores, open: Seq<Text>, token: Text)
    ensures
        is_whole(tape_primitive(s, open, token).0),
{
    let t = trim(token);
    if t.len() == 0 {
        lemma_single(Mark::Str(seq![]));
    } else if t == "[]"@ {
        lemma_single(Mark::Array(0));
    } else if t == "{}"@ {
        lemma_single(Mark::Object(0));
    } else if is_reference(t) {
        lemma_whole(reference(s, open, t).0);
    } else {
        lemma_plain(t);
    }
}

/// The nodes of pieces are those of as many items.
proof fn lemma_piece_items(s: Stores, open: Seq<Text>, parts: Seq<Text>, i: int, done: Seq<Mark>)
    requires
        0 <= i <= parts.len(),
        are_items(done, i as nat),
    ensures
        are_items(tape_pieces(s, open, parts, i, done).0, parts.len()),
    decreases parts.len() - i,
{
    if i < parts.len() {
        let (m, then) = tape_primitive(s, open, parts[i]);
        lemma_primitive(s, open, parts[i]);
        lemma_one_more(done, i as nat, m);
        lemma_piece_items(s, then, parts, i + 1, done + m);
    }
}

/// The nodes of an array on one line are those of one value.
proof fn lemma_delimited(s: Stores, open: Seq<Text>, x: Text, d: char)
    ensures
        is_whole(tape_delimited(s, open, x, d).0),
{
    lemma_none();
    lemma_piece_items(s, open, pieces(x, d), 0, seq![]);
    lemma_array(tape_pieces(s, open, pieces(x, d), 0, seq![]).0, pieces(x, d).len());
}

/// The nodes of a value on one line are those of one value.
proof fn lemma_inline(s: Stores, open: Seq<Text>, input: Text)
    ensures
        is_whole(tape_inline(s, open, input).0),
    decreases input.len(), 0nat, 0nat,
{
    lemma_trim_len(input);
    lemma_brace_span(trim(input), 0, outside(), 0);
    let t = trim(input);
    if t.len() > 0 && t[0] == '{' && brace_content(t) is Some {
        let x = brace_content(t)->0;
        let (m, n, then) = tape_entries(s, open, x, 0, seq![], 0);
        lemma_none();
        lemma_inline_entries(s, open, x, 0, seq![], 0);
        lemma_object(m, n);
    } else if t.len() > 0 && t[0] == '[' && bracket_close(t, 0, outside()) is Some {
        lemma_delimited(s, open, t.subrange(1, bracket_close(t, 0, outside())->0), ',');
    } else {
        lemma_primitive(s, open, t);
    }
}

/// The nodes of entries on one line are those of as many entries as were
/// counted.
proof fn lemma_inline_entries(
    s: Stores,
    open: Seq<Text>,
    x: Text,
    i: int,
    done: Seq<Mark>,
    n: nat,
)
    requires
        are_entries(done, n),
    ensures
        ({
            let (m, k, _) = tape_entries(s, open, x, i, done, n);
            are_entries(m, k)
        }),
    decreases x.len(), 1nat, pieces(x, ',').len() - i,
{
    if 0 <= i < pieces(x, ',').len() {
        lemma_pieces(x, ',');
        lemma_trim_len(pieces(x, ',')[i]);
        lemma_key_colon(trim(pieces(x, ',')[i]));
        let p = trim(pieces(x, ',')[i]);
        match key_colon(p) {
            Some(k) => {
                let v = p.subrange(k + 1, p.len() as int);
                let key = bare_key(p.subrange(0, k));
                let (m, then) = tape_inline(s, open, v);
                lemma_inline(s, open, v);
                lemma_one_entry(key, m);
                lemma_more_entries(done, n, seq![Mark::Key(key)] + m, 1);
                lemma_inline_entries(s, then, x, i + 1, done + (seq![Mark::Key(key)] + m), n + 1);
            },
            None => {
                lemma_inline_entries(s, open, x, i + 1, done, n);
            },
        }
    }
}

/// The nodes of a row are those of as many entries as there are fields.
proof fn lemma_row(
    s: Stores,
    open: Seq<Text>,
    fields: Seq<Text>,
    row: Seq<Text>,
    k: int,
    done: Seq<Mark>,
)
    requires
        0 <= k <= fields.len(),
        are_entries(done, k as nat),
    ensures
        are_entries(tape_row(s, open, fields, row, k, done).0, fields.len()),
    decreases fields.len() - k,
{
    if k < fields.len() {
        let (m, then) = if k < row.len() {
            tape_primitive(s, open, row[k])
        } else {
            (seq![Mark::Null], open)
        };
        if k < row.len() {
            lemma_primitive(s, open, row[k]);
        } else {
            lemma_single(Mark::Null);
        }
        lemma_one_entry(fields[k], m);
        lemma_more_entries(done, k as nat, seq![Mark::Key(fields[k])] + m, 1);
        lemma_row(s, then, fields, row, k + 1, done + (seq![Mark::Key(fields[k])] + m));
    }
}

// ---------------------------------------------------------------------------
// Lines

/// The nodes of an object's lines are those of as many entries as were counted.
proof fn lemma_object_lines(
    s: Stores,
    open: Seq<Text>,
    ls: Seq<Line>,
    base: int,
    done: Seq<Mark>,
    n: nat,
)
    requires
        are_entries(done, n),
    ensures
        reads_entries(tape_object(s, open, ls, base, done, n)),
    decreases ls.len(), 0nat,
{
    if ls.len() == 0 || ls[0].depth < base {
    } else if ls[0].depth > base {
        lemma_object_lines(s, open, ls.drop_first(), base, done, n);
    } else {
        let t = tape_field(s, open, ls[0].text, ls.drop_first(), base);
        lemma_field(s, open, ls[0].text, ls.drop_first(), base);
        if let Ok(r) = t.result {
            lemma_more_entries(done, n, r.marks, r.count);
            lemma_object_lines(
                s,
                t.open,
                shorter(ls, r.rest),
                base,
                done + r.marks,
                n + r.count,
            );
        }
    }
}

/// The nodes of a field are those of one entry, or none.
proof fn lemma_field(s: Stores, open: Seq<Text>, c: Text, ls: Seq<Line>, base: int)
    ensures
        reads_entries(tape_field(s, open, c, ls, base)),
    decreases ls.len(), 2nat,
{
    lemma_none();
    match array_header(c) {
        Some(h) if h.key is Some => {
            lemma_array_lines(s, open, ls, base, h);
            lemma_keyed(h.raw->0, tape_array(s, open, ls, base, h));
        },
        _ => {
            if let Some(k) = key_colon(c) {
                lemma_key_value(s, open, c, k, ls, base);
            }
        },
    }
}

/// The nodes of a field with a colon are those of one entry.
proof fn lemma_key_value(s: Stores, open: Seq<Text>, c: Text, k: int, ls: Seq<Line>, base: int)
    ensures
        reads_entries(tape_key_value(s, open, c, k, ls, base)),
    decreases ls.len(), 1nat,
{
    lemma_none();
    if let Ok((key, end)) = raw_key_before(c, k) {
        let rest = trim(c.subrange(end, c.len() as int));
        if rest.len() > 0 {
            let m = tape_inline(s, open, rest).0;
            lemma_inline(s, open, rest);
            lemma_one_entry(key, m);
        } else if ls.len() > 0 && ls[0].depth > base {
            if ls[0].depth == base + 1 && is_item(ls[0].text) {
                let t = tape_list(s, open, ls, base, seq![], 0);
                lemma_list_lines(s, open, ls, base, seq![], 0);
                lemma_as_array(t);
                lemma_keyed(key, as_array(t));
            } else {
                let t = tape_object(s, open, ls, base + 1, seq![], 0);
                lemma_object_lines(s, open, ls, base + 1, seq![], 0);
                lemma_as_object(t);
                lemma_keyed(key, as_object(t));
            }
        } else {
            lemma_single(Mark::Object(0));
            lemma_one_entry(key, seq![Mark::Object(0)]);
        }
    }
}

/// The nodes of a list's lines are those of as many items as were counted.
proof fn lemma_list_lines(
    s: Stores,
    open: Seq<Text>,
    ls: Seq<Line>,
    base: int,
    done: Seq<Mark>,
    n: nat,
)
    requires
        are_items(done, n),
    ensures
        reads_items(tape_list(s, open, ls, base, done, n)),
    decreases ls.len(), 0nat,
{
    if ls.len() == 0 || ls[0].depth < base + 1 {
    } else if ls[0].depth > base + 1 {
        lemma_list_lines(s, open, ls.drop_first(), base, done, n);
    } else if is_item(ls[0].text) {
        let item = item_text(ls[0].text);
        if is_inline_item(item) {
            let (m, then) = tape_inline(s, open, item);
            lemma_inline(s, open, item);
            lemma_one_more(done, n, m);
            lemma_list_lines(s, then, ls.drop_first(), base, done + m, n + 1);
        } else {
            let t = tape_list_item(s, open, item, ls.drop_first(), base);
            lemma_item_lines(s, open, item, ls.drop_first(), base);
            if let Ok(r) = t.result {
                lemma_one_more(done, n, r.marks);
                lemma_list_lines(s, t.open, shorter(ls, r.rest), base, done + r.marks, n + 1);
            }
        }
    }
}

/// The nodes of an array with a header are those of one value.
proof fn lemma_array_lines(s: Stores, open: Seq<Text>, ls: Seq<Line>, base: int, h: Header)
    ensures
        reads_whole(tape_array(s, open, ls, base, h)),
    decreases ls.len(), 1nat,
{
    lemma_none();
    lemma_single(Mark::Array(0));
    if h.length > 0 {
        match h.raw_fields {
            None => match h.inline {
                Some(x) => {
                    lemma_delimited(s, open, x, h.delimiter);
                },
                None => {
                    lemma_expanded_lines(s, open, ls, base, h.length, seq![], 0);
                    lemma_as_array(tape_expanded(s, open, ls, base, h.length, seq![], 0));
                },
            },
            Some(f) => {
                let r = tape_table(s, open, ls, base, h.length, f, h.delimiter, seq![], 0).0;
                lemma_table_lines(s, open, ls, base, h.length, f, h.delimiter, seq![], 0);
                lemma_array(r.marks, r.count);
            },
        }
    }
}

/// The nodes of a table's lines are those of as many items as were counted.
proof fn lemma_table_lines(
    s: Stores,
    open: Seq<Text>,
    ls: Seq<Line>,
    base: int,
    most: nat,
    fields: Seq<Text>,
    d: char,
    done: Seq<Mark>,
    n: nat,
)
    requires
        are_items(done, n),
    ensures
        ({
            let r = tape_table(s, open, ls, base, most, fields, d, done, n).0;
            are_items(r.marks, r.count)
        }),
    decreases ls.len(),
{
    if ls.len() > 0 && n < most && ls[0].depth == base + 1 {
        let (m, then) = tape_row(s, open, fields, cells(ls[0].text, d), 0, seq![]);
        let x = seq![Mark::Object(fields.len())] + m;
        lemma_none();
        lemma_row(s, open, fields, cells(ls[0].text, d), 0, seq![]);
        lemma_object(m, fields.len());
        lemma_one_more(done, n, x);
        lemma_table_lines(s, then, ls.drop_first(), base, most, fields, d, done + x, n + 1);
    }
}

/// The nodes of an expanded array's lines are those of as many items as were
/// counted.
proof fn lemma_expanded_lines(
    s: Stores,
    open: Seq<Text>,
    ls: Seq<Line>,
    base: int,
    most: nat,
    done: Seq<Mark>,
    n: nat,
)
    requires
        are_items(done, n),
    ensures
        reads_items(tape_expanded(s, open, ls, base, most, done, n)),
    decreases ls.len(), 0nat,
{
    if ls.len() == 0 || n >= most || ls[0].depth != base + 1 {
    } else if !is_item(ls[0].text) {
        lemma_expanded_lines(s, open, ls.drop_first(), base, most, done, n);
    } else {
        let item = item_text(ls[0].text);
        let after = ls.drop_first();
        match array_header(item) {
            Some(h) if h.key is None => match h.inline {
                Some(x) => {
                    let (m, then) = tape_delimited(s, open, x, h.delimiter);
                    lemma_delimited(s, open, x, h.delimiter);
                    lemma_one_more(done, n, m);
                    lemma_expanded_lines(s, then, after, base, most, done + m, n + 1);
                },
                None => {
                    let at = item_base(base + 1, depth_at(after, 0));
                    let t = tape_array(s, open, after, at, h);
                    lemma_array_lines(s, open, after, at, h);
                    if let Ok(r) = t.result {
                        lemma_one_more(done, n, r.marks);
                        lemma_expanded_lines(
                            s,
                            t.open,
                            shorter(ls, r.rest),
                            base,
                            most,
                            done + r.marks,
                            n + 1,
                        );
                    }
                },
            },
            _ => if is_inline_item(item) {
                let (m, then) = tape_inline(s, open, item);
                lemma_inline(s, open, item);
                lemma_one_more(done, n, m);
                lemma_expanded_lines(s, then, after, base, most, done + m, n + 1);
            } else {
                let t = tape_list_item(s, open, item, after, base);
                lemma_item_lines(s, open, item, after, base);
                if let Ok(r) = t.result {
                    lemma_one_more(done, n, r.marks);
                    lemma_expanded_lines(
                        s,
                        t.open,
                        shorter(ls, r.rest),
                        base,
                        most,
                        done + r.marks,
                        n + 1,
                    );
                }
            },
        }
    }
}

/// The nodes that a list item begins with are those of one entry, or none.
proof fn lemma_item_head(s: Stores, open: Seq<Text>, item: Text, ls: Seq<Line>, base: int)
    ensures
        reads_entries(tape_item_head(s, open, item, ls, base)),
    decreases ls.len(), 2nat,
{
    lemma_none();
    match array_header(item) {
        Some(h) => {
            if let Some(k) = h.raw {
                let at = item_base(base + 1, depth_at(ls, 0));
                lemma_array_lines(s, open, ls, at, h);
                lemma_keyed(k, tape_array(s, open, ls, at, h));
            }
        },
        None => {
            if let Ok((k, end)) = raw_leading_key(item) {
                let rest = trim(item.subrange(end, item.len() as int));
                lemma_item_value(s, open, rest, ls, base);
                lemma_keyed(k, tape_item_value(s, open, rest, ls, base));
            }
        },
    }
}

/// The nodes of the first entry's value are those of one value.
proof fn lemma_item_value(s: Stores, open: Seq<Text>, rest: Text, ls: Seq<Line>, base: int)
    ensures
        reads_whole(tape_item_value(s, open, rest, ls, base)),
    decreases ls.len(), 1nat,
{
    lemma_none();
    if rest.len() > 0 {
        lemma_inline(s, open, rest);
    } else if ls.len() > 0 && ls[0].depth >= base + 2 {
        let at = item_base(base + 1, ls[0].depth) + 1;
        lemma_object_lines(s, open, ls, at, seq![], 0);
        lemma_as_object(tape_object(s, open, ls, at, seq![], 0));
    } else {
        lemma_single(Mark::Object(0));
    }
}

/// The nodes of a list item are those of one value.
proof fn lemma_item_lines(s: Stores, open: Seq<Text>, item: Text, ls: Seq<Line>, base: int)
    ensures
        reads_whole(tape_list_item(s, open, item, ls, base)),
    decreases ls.len(), 3nat,
{
    let t = tape_item_head(s, open, item, ls, base);
    lemma_item_head(s, open, item, ls, base);
    if let Ok(r) = t.result {
        let rest = no_longer(ls, r.rest);
        let u = tape_more(s, t.open, rest, base + 2, r.marks, r.count);
        lemma_more_lines(s, t.open, rest, base + 2, r.marks, r.count);
        if let Ok(q) = u.result {
            lemma_object(q.marks, q.count);
        }
    }
}

/// The nodes of a list item's further lines are those of as many entries as were
/// counted.
proof fn lemma_more_lines(
    s: Stores,
    open: Seq<Text>,
    ls: Seq<Line>,
    depth: int,
    done: Seq<Mark>,
    n: nat,
)
    requires
        are_entries(done, n),
    ensures
        reads_entries(tape_more(s, open, ls, depth, done, n)),
    decreases ls.len(), 0nat,
{
    if ls.len() == 0 || ls[0].depth < depth {
    } else if ls[0].depth > depth {
        lemma_more_lines(s, open, ls.drop_first(), depth, done, n);
    } else if !is_item(ls[0].text) {
        let t = tape_field(s, open, ls[0].text, ls.drop_first(), depth);
        lemma_field(s, open, ls[0].text, ls.drop_first(), depth);
        if let Ok(r) = t.result {
            lemma_more_entries(done, n, r.marks, r.count);
            lemma_more_lines(
                s,
                t.open,
                shorter(ls, r.rest),
                depth,
                done + r.marks,
                n + r.count,
            );
        }
    }
}

// ---------------------------------------------------------------------------
// Documents

/// Whether the nodes of a document are those of one value.
pub open spec fn tells_whole(t: Out<Seq<Mark>>) -> bool {
    t.result matches Ok(m) ==> is_whole(m)
}

/// The nodes of the object that all lines stand for.
proof fn lemma_root(s: Stores, open: Seq<Text>, ls: Seq<Line>)
    ensures
        tells_whole(tape_root(s, open, ls)),
{
    reveal(tape_root);
    lemma_none();
    lemma_object_lines(s, open, ls, 0, seq![], 0);
    let t = tape_object(s, open, ls, 0, seq![], 0);
    if let Ok(r) = t.result {
        lemma_object(r.marks, r.count);
    }
}

/// The nodes of a document are those of one value.
proof fn lemma_document(s: Stores, open: Seq<Text>, ls: Seq<Line>)
    ensures
        tells_whole(tape_document(s, open, ls)),
{
    reveal(root_array);
    reveal(fields_or_token);
    lemma_single(Mark::Object(0));
    if ls.len() > 0 && !(ls.len() == 1 && ls[0].text == "{}"@) {
        match array_header(ls[0].text) {
            Some(h) if h.key is None => {
                lemma_array_lines(s, open, ls.drop_first(), ls[0].depth, h);
            },
            _ => {
                let now = if ls[0].text == "{}"@ {
                    ls.drop_first()
                } else {
                    ls
                };
                let (m, then) = tape_primitive(s, open, now[0].text);
                lemma_root(s, open, now);
                lemma_primitive(s, open, now[0].text);
                lemma_root(s, then, ls);
            },
        }
    }
}

/// Every tape is one value and nothing more: whatever the document, the nodes
/// that are read are those of a value from the first to the last, with as many
/// items and entries behind each array and object as its node says.
pub proof fn every_tape_is_one_value(d: Setting, input: Text)
    ensures
        tape_step(d, input).0 matches Ok(m) ==> exists|v: Val| #[trigger] flat(v) == m,
{
    reveal(is_whole);
    if !is_minified(input) {
        let k = prescanned(d.known, lines(input), 0);
        let indent = if d.auto {
            detected_indent(input, d.indent)
        } else {
            d.indent
        };
        lemma_document(k.stores, k.open, kept(input, indent));
    }
}

// ---------------------------------------------------------------------------
// What a tape tells

/// The first of some nodes, and those behind it.
proof fn lemma_heads(a: Mark, b: Mark, x: Seq<Mark>, y: Seq<Mark>)
    requires
        seq![a] + x == seq![b] + y,
    ensures
        a == b,
        x == y,
{
    let p = seq![a] + x;
    let q = seq![b] + y;
    assert(p[0] == q[0]);
    assert(x =~= p.subrange(1, p.len() as int));
    assert(y =~= q.subrange(1, q.len() as int));
}

/// What a value's nodes begin with, and those behind it.
pub open spec fn head(v: Val) -> Mark {
    match v {
        Val::Null => Mark::Null,
        Val::Bool(b) => Mark::Bool(b),
        Val::Integer(n) => Mark::Integer(n),
        Val::Float(t) => Mark::Float(t),
        Val::Str(s) => Mark::Str(s),
        Val::Array(a) => Mark::Array(a.len()),
        Val::Object(o) => Mark::Object(o.len()),
    }
}

/// The nodes of a value behind its first.
pub open spec fn behind(v: Val) -> Seq<Mark> {
    match v {
        Val::Array(a) => flat_items(a, 0),
        Val::Object(o) => flat_entries(o, 0),
        _ => seq![],
    }
}

/// A value's nodes are the first and those behind it.
proof fn lemma_head(v: Val, x: Seq<Mark>)
    ensures
        flat(v) + x == seq![head(v)] + (behind(v) + x),
{
    assert(flat(v) =~= seq![head(v)] + behind(v));
    assert(flat(v) + x =~= seq![head(v)] + (behind(v) + x));
}

/// Nodes that begin with those of a value begin with those of no other.
proof fn lemma_apart(v: Val, w: Val, x: Seq<Mark>, y: Seq<Mark>)
    requires
        flat(v) + x == flat(w) + y,
    ensures
        v == w,
        x == y,
    decreases v, 0int,
{
    lemma_head(v, x);
    lemma_head(w, y);
    lemma_heads(head(v), head(w), behind(v) + x, behind(w) + y);
    match (v, w) {
        (Val::Array(a), Val::Array(b)) => {
            assert(decreases_to!(v => a));
            lemma_items_apart(a, b, 0, x, y);
            assert(a =~= b);
        },
        (Val::Object(o), Val::Object(p)) => {
            assert(decreases_to!(v => o));
            lemma_entries_apart(o, p, 0, x, y);
            assert(o =~= p);
        },
        _ => {
            assert(Seq::<Mark>::empty() + x =~= x);
            assert(Seq::<Mark>::empty() + y =~= y);
        },
    }
}

/// Nodes that begin with those of items begin with those of no others.
proof fn lemma_items_apart(a: Seq<Val>, b: Seq<Val>, i: int, x: Seq<Mark>, y: Seq<Mark>)
    requires
        a.len() == b.len(),
        0 <= i <= a.len(),
        flat_items(a, i) + x == flat_items(b, i) + y,
    ensures
        forall|j: int| i <= j < a.len() ==> a[j] == b[j],
        x == y,
    decreases a, a.len() - i,
{
    if i < a.len() {
        let c = flat_items(a, i + 1) + x;
        let d = flat_items(b, i + 1) + y;
        lemma_item_smaller(a, i);
        assert(flat_items(a, i) + x =~= flat(a[i]) + c);
        assert(flat_items(b, i) + y =~= flat(b[i]) + d);
        lemma_apart(a[i], b[i], c, d);
        lemma_items_apart(a, b, i + 1, x, y);
    } else {
        assert(flat_items(a, i) + x =~= x);
        assert(flat_items(b, i) + y =~= y);
    }
}

/// Nodes that begin with those of entries begin with those of no others.
proof fn lemma_entries_apart(o: Entries, p: Entries, i: int, x: Seq<Mark>, y: Seq<Mark>)
    requires
        o.len() == p.len(),
        0 <= i <= o.len(),
        flat_entries(o, i) + x == flat_entries(p, i) + y,
    ensures
        forall|j: int| i <= j < o.len() ==> o[j] == p[j],
        x == y,
    decreases o, o.len() - i,
{
    if i < o.len() {
        let c = flat_entries(o, i + 1) + x;
        let d = flat_entries(p, i + 1) + y;
        let f = flat(o[i].1) + c;
        let g = flat(p[i].1) + d;
        lemma_entry_smaller(o, i);
        assert(flat_entries(o, i) + x =~= seq![Mark::Key(o[i].0)] + f);
        assert(flat_entries(p, i) + y =~= seq![Mark::Key(p[i].0)] + g);
        lemma_heads(Mark::Key(o[i].0), Mark::Key(p[i].0), f, g);
        lemma_apart(o[i].1, p[i].1, c, d);
        lemma_entries_apart(o, p, i + 1, x, y);
        assert(o[i] == p[i]);
    } else {
        assert(flat_entries(o, i) + x =~= x);
        assert(flat_entries(p, i) + y =~= y);
    }
}

/// A tape tells its value: no other value has the same nodes, and no nodes of a
/// value begin with all those of another.
pub proof fn a_tape_tells_its_value(v: Val, w: Val, more: Seq<Mark>)
    requires
        flat(v) + more == flat(w),
    ensures
        v == w,
        more.len() == 0,
{
    let none = Seq::<Mark>::empty();
    assert(flat(w) + none =~= flat(w));
    lemma_apart(v, w, more, none);
}

} // verus!
