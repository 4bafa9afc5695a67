//! Lists without a length: list items below a key with nothing behind it.

use vstd::prelude::*;
use crate::decoder::{
    bad, decode_text, document, expanded_lines, field, good, is_inline_item, is_item, item_text,
    later, left, list_item, list_lines, new_setting, object_lines,
};
use crate::encoder::{
    key_text, layout, matching_schema, primitive_text, written_item, written_items,
    written_object_item, Style,
};
use crate::laying::{
    lemma_decode_laid_out, lemma_layout_is_laid_out, minifying_keeps_the_value, said,
};
use crate::lines::{array_header, Line};
use crate::minifier::minified;
use crate::readback::{key_reads, lemma_key_line, lemma_key_text, lemma_primitive_reads};
use crate::roundtrip::{
    closed_at, good_line, is_document, is_free_key, is_level, item_reads, items_read,
    lemma_block_below, lemma_block_nests, lemma_empty_inline, lemma_empty_no_colon,
    lemma_item_first, lemma_item_text, lemma_items_block, lemma_level_concat, lemma_listed,
    lemma_object_item_reads, lemma_object_line, lemma_placed, lemma_placed_first, lemma_plain_style,
    lemma_read_items, lemma_reference_item, lemma_taken, placed, plain_style, read_item, read_items,
    resolves, usable,
};
use crate::schema_registry::Stores;
use crate::text::{trim, Text};
use crate::value::{items_well_keyed, lemma_key_index, put, well_keyed, Entries, Val};

verus! {

/// Whether no list item at the depth below `base`, from line `j` on, is the header
/// of an array without a key.
pub open spec fn no_bare_headers(ls: Seq<Line>, base: int, j: int) -> bool {
    forall|h: int|
        j <= h < ls.len() && (#[trigger] ls[h]).depth == base + 1 && is_item(ls[h].text) ==> {
            array_header(item_text(ls[h].text)) matches Some(x) ==> x.key is Some
        }
}

/// List items say the same with their number before them and without it: the
/// lines of which a reader that was told how many items there are finds the last
/// are read as the same items by one that was not told, with the same error if
/// there is one, where no item is the header of an array without a key.
pub proof fn a_list_needs_no_length(
    s: Stores,
    open: Seq<Text>,
    ls: Seq<Line>,
    base: int,
    n: nat,
    j: int,
    done: Seq<Val>,
)
    requires
        0 <= j,
        no_bare_headers(ls, base, j),
        expanded_lines(s, open, ls, base, n, j, done).result matches Ok((_, next)) ==> next
            >= ls.len() || ls[next].depth <= base,
    ensures
        list_lines(s, open, ls, base, j, done) == expanded_lines(s, open, ls, base, n, j, done),
    decreases left(ls, j),
{
    if j >= ls.len() || done.len() >= n || ls[j].depth != base + 1 {
    } else if !is_item(ls[j].text) {
        a_list_needs_no_length(s, open, ls, base, n, j + 1, done);
    } else {
        let item = item_text(ls[j].text);
        assert(ls[j].depth == base + 1);
        if is_inline_item(item) {
            let (v, then) = crate::tokens::inline_value(s, open, item);
            a_list_needs_no_length(s, then, ls, base, n, j + 1, done.push(v));
        } else {
            let t = list_item(s, open, ls, j, base);
            if let Ok((o, next)) = t.result {
                a_list_needs_no_length(
                    s,
                    t.open,
                    ls,
                    base,
                    n,
                    later(j, next),
                    done.push(Val::Object(o)),
                );
            }
        }
    }
}

/// A key with nothing behind it and list items below it has an array of what the
/// items stand for, as if the number of items stood behind the key.
pub proof fn a_key_takes_the_items_below_it(
    s: Stores,
    open: Seq<Text>,
    ls: Seq<Line>,
    base: int,
    i: int,
    k: Text,
    n: nat,
)
    requires
        0 <= i < ls.len() - 1,
        key_reads(k),
        ls[i].text == key_text(k) + seq![':'],
        ls[i + 1].depth == base + 1,
        is_item(ls[i + 1].text),
        no_bare_headers(ls, base, i + 1),
        expanded_lines(s, open, ls, base, n, i + 1, seq![]).result matches Ok((_, next)) ==> next
            >= ls.len() || ls[next].depth <= base,
    ensures
        ({
            let t = expanded_lines(s, open, ls, base, n, i + 1, seq![]);
            field(s, open, ls, base, i) == match t.result {
                Ok((a, next)) => good((Some((k, Val::Array(a))), next), t.open),
                Err(m) => bad(m, t.open),
            }
        }),
{
    let t = key_text(k);
    let c = ls[i].text;
    let none: Text = seq![];
    lemma_key_text(k);
    assert(c =~= t + seq![':'] + none);
    lemma_key_line(k, none);
    assert(c.subrange(t.len() as int + 1, c.len() as int) =~= none);
    assert(trim(none) =~= none);
    a_list_needs_no_length(s, open, ls, base, n, i + 1, seq![]);
}

/// An item that is written as a list item is read as one.
proof fn lemma_item_listed(
    e: Style,
    s: Stores,
    open: Seq<Text>,
    ls: Seq<Line>,
    i: int,
    v: Val,
    base: int,
    done: Seq<Val>,
)
    requires
        resolves(e, s, open, ls),
        usable(e),
        item_reads(e, v),
        well_keyed(v),
        v matches Val::Array(a) ==> a.len() == 0,
        placed(ls, i, written_item(e, v, base + 1)),
        closed_at(ls, i + written_item(e, v, base + 1).len(), base + 1),
    ensures
        list_lines(s, open, ls, base, i, done) == list_lines(
            s,
            open,
            ls,
            base,
            i + written_item(e, v, base + 1).len(),
            done.push(read_item(e, v)),
        ),
{
    let w = written_item(e, v, base + 1);
    lemma_item_first(e, v, base + 1);
    lemma_placed_first(ls, i, w);
    lemma_empty_inline(s, open);
    reveal_strlit("- {}");
    reveal_strlit("- []");
    reveal_strlit("- ");
    reveal_strlit("[]");
    reveal_strlit("{}");
    match v {
        Val::Object(o) => {
            if o.len() == 0 {
                assert(w[0].text =~= "- "@ + "{}"@);
                lemma_item_text("{}"@);
                lemma_empty_no_colon();
                assert(o =~= seq![]);
                assert(read_item(e, v) == v);
            } else if matching_schema(e.schemas, v, 0) is Some {
                lemma_reference_item(e, s, open, ls, i, v, base + 1);
            } else {
                assert(w == written_object_item(e, o, base + 1));
                lemma_object_item_reads(e, s, open, ls, i, o, base);
                let t = list_item(s, open, ls, i, base);
            }
        },
        Val::Array(a) => {
            assert(w[0].text =~= "- "@ + "[]"@);
            lemma_item_text("[]"@);
            lemma_empty_no_colon();
            assert(a =~= seq![]);
            assert(read_item(e, v) == v);
        },
        _ => {
            let p = primitive_text(v, ',');
            lemma_item_text(p);
            lemma_listed(v);
            lemma_primitive_reads(s, open, v);
        },
    }
}

/// Whether no item is an array with items in it.
pub open spec fn no_arrays(a: Seq<Val>) -> bool {
    forall|i: int| 0 <= i < a.len() ==> ((#[trigger] a[i]) matches Val::Array(x) ==> x.len() == 0)
}

/// Items that are written as list items are read as such.
proof fn lemma_items_listed(
    e: Style,
    s: Stores,
    open: Seq<Text>,
    ls: Seq<Line>,
    i: int,
    a: Seq<Val>,
    base: int,
    j: int,
    done: Seq<Val>,
)
    requires
        resolves(e, s, open, ls),
        usable(e),
        0 <= j <= a.len(),
        no_arrays(a),
        items_read(e, a, j),
        items_well_keyed(a, j),
        placed(ls, i, written_items(e, a, base + 1, j)),
        closed_at(ls, i + written_items(e, a, base + 1, j).len(), base),
        done == read_items(e, a, 0).subrange(0, j),
    ensures
        list_lines(s, open, ls, base, i, done) == good(
            (read_items(e, a, 0), i + written_items(e, a, base + 1, j).len()),
            open,
        ),
    decreases a.len() - j,
{
    lemma_read_items(e, a, 0);
    if j < a.len() {
        let v = a[j];
        let w = written_item(e, v, base + 1);
        let rest = written_items(e, a, base + 1, j + 1);
        lemma_placed(ls, i, w, rest);
        let n = i + w.len();
        if j + 1 < a.len() {
            assert(items_read(e, a, j + 1));
            assert(item_reads(e, a[j + 1]));
            lemma_item_first(e, a[j + 1], base + 1);
            let next = written_item(e, a[j + 1], base + 1);
            lemma_placed(ls, n, next, written_items(e, a, base + 1, j + 2));
        }
        assert(closed_at(ls, n, base + 1));
        let more = done.push(read_item(e, v));
        assert(more =~= read_items(e, a, 0).subrange(0, j + 1));
        assert(item_reads(e, v));
        assert(well_keyed(v));
        lemma_item_listed(e, s, open, ls, i, v, base, done);
        lemma_items_listed(e, s, open, ls, n, a, base, j + 1, more);
    } else {
        assert(done =~= read_items(e, a, 0));
    }
}

/// A key with nothing behind it, and items below it as list items.
pub open spec fn list_document(k: Text, a: Seq<Val>) -> Seq<Line> {
    seq![Line { depth: 0, text: key_text(k) + ":"@ }] + written_items(plain_style(), a, 1, 0)
}

/// The lines of a list without a length are those of a document.
proof fn lemma_list_document(k: Text, a: Seq<Val>)
    requires
        key_reads(k),
        is_free_key(k),
        a.len() > 0,
        items_read(plain_style(), a, 0),
    ensures
        is_document(list_document(k, a)),
{
    let e = plain_style();
    let l = Line { depth: 0, text: key_text(k) + ":"@ };
    let body = written_items(e, a, 1, 0);
    lemma_plain_style(arbitrary(), arbitrary(), seq![]);
    lemma_object_line(k, 0);
    lemma_items_block(e, a, 1, 0);
    lemma_block_below(l, body, 0, 1);
    assert(is_level(seq![l], 0));
    assert(is_level(body, 0));
    lemma_level_concat(seq![l], body, 0);
}

/// A key with nothing behind it and list items below it is read as an array with
/// one value for each item, in their order, from a document with any number of
/// spaces to a level but none, and from the same on one line. The number of items
/// need not be written.
pub proof fn a_list_is_read_without_a_length(k: Text, a: Seq<Val>, indent: nat)
    requires
        key_reads(k),
        is_free_key(k),
        a.len() > 0,
        no_arrays(a),
        items_read(plain_style(), a, 0),
        items_well_keyed(a, 0),
        indent >= 1,
    ensures
        ({
            let t = layout(list_document(k, a), indent);
            let items = read_items(plain_style(), a, 0);
            &&& items.len() == a.len()
            &&& forall|i: int| 0 <= i < a.len() ==> #[trigger] items[i] == read_item(plain_style(), a[i])
            &&& decode_text(t) == Ok::<Val, Text>(Val::Object(seq![(k, Val::Array(items))]))
            &&& decode_text(minified(t)) == decode_text(t)
        }),
{
    let e = plain_style();
    let w = list_document(k, a);
    let none: Seq<Line> = seq![];
    let t = layout(w, indent);
    let body = written_items(e, a, 1, 0);
    lemma_list_document(k, a);
    lemma_block_nests(w);
    assert(none + w =~= w);
    lemma_layout_is_laid_out(none, w, indent);
    let known = new_setting().known;
    assert forall|i: int| 0 <= i < w.len() implies good_line(#[trigger] w[i]) by {}
    lemma_plain_style(known.stores, known.open, w);
    lemma_taken(known, w, none);
    let s = known.stores;
    let open = known.open;
    let items = read_items(e, a, 0);
    lemma_read_items(e, a, 0);
    assert(items.subrange(0, 0) =~= seq![]);
    assert(w.subrange(1, w.len() as int) =~= body);
    lemma_items_listed(e, s, open, w, 1, a, 0, 0, seq![]);
    assert(item_reads(e, a[0]));
    lemma_item_first(e, a[0], 1);
    assert(body == written_item(e, a[0], 1) + written_items(e, a, 1, 1));
    assert(w[1] == body[0]);
    let c = w[0].text;
    let kt = key_text(k);
    let blank: Text = seq![];
    reveal_strlit(":");
    lemma_key_text(k);
    assert(c =~= kt + seq![':'] + blank);
    lemma_key_line(k, blank);
    assert(c.subrange(kt.len() as int + 1, c.len() as int) =~= blank);
    assert(trim(blank) =~= blank);
    let v = Val::Array(items);
    assert(field(s, open, w, 0, 0) == good((Some((k, v)), w.len() as int), open));
    let empty: Entries = seq![];
    lemma_key_index(empty, k);
    assert(put(empty, k, v) =~= seq![(k, v)]);
    assert(object_lines(s, open, w, 0, 0, empty) == object_lines(
        s,
        open,
        w,
        0,
        w.len() as int,
        seq![(k, v)],
    ));
    lemma_empty_no_colon();
    assert(document(s, open, w) == good(Val::Object(seq![(k, v)]), open));
    assert(said(w) == Ok::<Val, Text>(Val::Object(seq![(k, v)])));
    lemma_decode_laid_out(t);
    minifying_keeps_the_value(t);
}

} // verus!
