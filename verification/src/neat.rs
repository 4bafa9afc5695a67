//! Values that come back from their documents, told by the texts in them.

use vstd::prelude::*;
use crate::decoder::decode_text;
use crate::encoder::{
    all_simple, encode_text, is_plain_key, is_row, is_safe, matching_schema, table_fields,
    unsafe_in_key, unsafe_in_value,
};
use crate::minifier::minified;
use crate::number::{number_of, Num};
use crate::readback::{key_reads, reads_plain, token_reads};
use crate::roundtrip::{
    all_listed, array_reads, decoding_undoes_encoding, decoding_undoes_minified_encoding,
    entries_read, entry_reads, first_reads, is_free_key, item_reads, items_read, plain_style,
    read_back, reads_back, table_reads,
};
use crate::text::{is_space, Text};
use crate::value::{
    entry, is_simple, key_index, keys, lemma_entry_found, lemma_entry_smaller, lemma_item_smaller,
    lemma_key_index, val_eq, well_keyed, Entries, Val,
};

verus! {

/// Whether the white space in a text is spaces and tabs.
pub open spec fn is_neat_text(t: Text) -> bool {
    forall|i: int| 0 <= i < t.len() && is_space(#[trigger] t[i]) ==> t[i] == ' ' || t[i] == '\t'
}

/// Whether a value is neat: the white space in its texts is spaces and tabs, its
/// floats are finite, and none of its keys announces a definition.
pub open spec fn is_neat(v: Val) -> bool
    decreases v, 0int,
{
    match v {
        Val::Str(s) => is_neat_text(s),
        Val::Float(t) => number_of(t) == Num::Decimal(t),
        Val::Array(a) => a.len() <= usize::MAX && items_neat(a, 0),
        Val::Object(o) => entries_neat(o, 0),
        _ => true,
    }
}

/// Whether the items from `i` on are neat.
pub open spec fn items_neat(a: Seq<Val>, i: int) -> bool
    decreases a, a.len() - i,
{
    if 0 <= i < a.len() {
        is_neat(a[i]) && items_neat(a, i + 1)
    } else {
        true
    }
}

/// Whether the entries from `i` on are neat.
pub open spec fn entries_neat(o: Entries, i: int) -> bool
    decreases o, o.len() - i,
{
    if 0 <= i < o.len() {
        is_neat_text(o[i].0) && is_free_key(o[i].0) && is_neat(o[i].1) && entries_neat(o, i + 1)
    } else {
        true
    }
}

/// An item among neat items.
proof fn lemma_neat_item(a: Seq<Val>, i: int, k: int)
    requires
        items_neat(a, i),
        0 <= i <= k < a.len(),
    ensures
        is_neat(a[k]),
        items_neat(a, k),
    decreases k - i,
{
    if i < k {
        lemma_neat_item(a, i + 1, k);
    }
}

/// An entry among neat entries.
proof fn lemma_neat_entry(o: Entries, i: int, k: int)
    requires
        entries_neat(o, i),
        0 <= i <= k < o.len(),
    ensures
        is_neat_text(o[k].0),
        is_free_key(o[k].0),
        is_neat(o[k].1),
        entries_neat(o, k),
    decreases k - i,
{
    if i < k {
        lemma_neat_entry(o, i + 1, k);
    }
}

/// A neat text without spaces and tabs has no white space in it.
proof fn lemma_neat_plain(t: Text)
    requires
        is_neat_text(t),
        t.len() > 0,
        forall|i: int| 0 <= i < t.len() ==> t[i] != ' ' && t[i] != '\t',
    ensures
        reads_plain(t),
{
    assert(!is_space(t[0]) && !is_space(t[t.len() - 1]));
    assert forall|i: int| 0 <= i < t.len() implies t[i] != '\n' by {
        assert(!is_space(t[i]));
    }
}

/// A neat key reads back.
proof fn lemma_neat_key(k: Text)
    requires
        is_neat_text(k),
    ensures
        key_reads(k),
{
    if is_plain_key(k) {
        assert forall|i: int| 0 <= i < k.len() implies k[i] != ' ' && k[i] != '\t' by {
            assert(!unsafe_in_key(k[i]));
        }
        lemma_neat_plain(k);
    }
}

/// A neat primitive reads back.
proof fn lemma_neat_token(v: Val)
    requires
        is_neat(v),
    ensures
        token_reads(v),
{
    if let Val::Str(s) = v {
        if is_safe(s, ',') {
            assert forall|i: int| 0 <= i < s.len() implies s[i] != ' ' && s[i] != '\t' by {
                assert(!unsafe_in_value(s[i]));
            }
            lemma_neat_plain(s);
        }
    }
}

/// A neat entry reads back.
proof fn lemma_entry_neat(k: Text, v: Val, refs: bool)
    requires
        is_neat_text(k),
        is_free_key(k),
        is_neat(v),
    ensures
        entry_reads(plain_style(), k, v, refs),
        first_reads(plain_style(), k, v),
    decreases v, 0int,
{
    lemma_neat_key(k);
    match v {
        Val::Array(a) => {
            assert(decreases_to!(v => a));
            if a.len() > 0 {
                lemma_array_neat(a);
            }
        },
        Val::Object(o) => {
            assert(decreases_to!(v => o));
            assert(matching_schema(plain_style().schemas, v, 0) is None);
            lemma_entries_neat(o, 0, true);
        },
        _ => {
            lemma_neat_token(v);
        },
    }
}

/// Neat entries read back.
proof fn lemma_entries_neat(o: Entries, i: int, refs: bool)
    requires
        0 <= i <= o.len(),
        entries_neat(o, i),
    ensures
        entries_read(plain_style(), o, i, refs),
    decreases o, o.len() - i,
{
    if i < o.len() {
        lemma_entry_smaller(o, i);
        lemma_entry_neat(o[i].0, o[i].1, refs);
        lemma_entries_neat(o, i + 1, refs);
    }
}

/// A neat list item reads back.
proof fn lemma_item_neat(v: Val)
    requires
        is_neat(v),
    ensures
        item_reads(plain_style(), v),
    decreases v, 0int,
{
    match v {
        Val::Array(a) => {
            assert(decreases_to!(v => a));
            if a.len() > 0 {
                lemma_array_neat(a);
            }
        },
        Val::Object(o) => {
            assert(decreases_to!(v => o));
            assert(matching_schema(plain_style().schemas, v, 0) is None);
            if o.len() > 0 {
                lemma_entry_smaller(o, 0);
                lemma_entry_neat(o[0].0, o[0].1, false);
                lemma_entries_neat(o, 1, false);
            }
        },
        _ => {
            lemma_neat_token(v);
        },
    }
}

/// Neat list items read back.
proof fn lemma_items_neat(a: Seq<Val>, i: int)
    requires
        0 <= i <= a.len(),
        items_neat(a, i),
    ensures
        items_read(plain_style(), a, i),
    decreases a, a.len() - i,
{
    if i < a.len() {
        lemma_item_smaller(a, i);
        lemma_item_neat(a[i]);
        lemma_items_neat(a, i + 1);
    }
}

/// A neat array reads back.
proof fn lemma_array_neat(a: Seq<Val>)
    requires
        0 < a.len() <= usize::MAX,
        items_neat(a, 0),
    ensures
        array_reads(plain_style(), a),
    decreases a, a.len() + 1,
{
    if all_simple(a) {
        assert forall|i: int| 0 <= i < a.len() implies is_simple(#[trigger] a[i]) && token_reads(
            a[i],
        ) by {
            lemma_neat_item(a, 0, i);
            lemma_neat_token(a[i]);
        }
        assert(all_listed(a));
    } else {
        match table_fields(a) {
            Some(f) => {
                lemma_table_neat(a, f);
            },
            None => {
                lemma_items_neat(a, 0);
            },
        }
    }
}

/// A neat table reads back.
proof fn lemma_table_neat(a: Seq<Val>, f: Seq<Text>)
    requires
        a.len() > 0,
        items_neat(a, 0),
        table_fields(a) == Some(f),
    ensures
        table_reads(a, f),
{
    lemma_neat_item(a, 0, 0);
    let first = a[0]->Object_0;
    assert forall|k: int| 0 <= k < f.len() implies key_reads(#[trigger] f[k]) by {
        assert(f[k] == first[k].0);
        lemma_neat_entry(first, 0, k);
        lemma_neat_key(f[k]);
    }
    assert forall|i: int, k: int| 0 <= i < a.len() && 0 <= k < f.len() implies token_reads(
        #[trigger] entry(a[i]->Object_0, f[k])->0,
    ) by {
        let o = a[i]->Object_0;
        lemma_neat_item(a, 0, i);
        if i > 0 {
            assert(is_row(a[i], keys(first)));
            assert(entry(o, f[k]) is Some);
        } else {
            assert(o[k].0 == f[k]);
            lemma_entry_found(o, k);
        }
        lemma_key_index(o, f[k]);
        let j = key_index(o, f[k]);
        lemma_neat_entry(o, 0, j);
        lemma_neat_token(o[j].1);
    }
}

/// A neat value comes back from the document for it and from the same on one
/// line.
pub proof fn neat_values_come_back(v: Val, indent: nat)
    requires
        is_neat(v),
        well_keyed(v),
        indent >= 1,
    ensures
        ({
            let back = read_back(plain_style(), v);
            &&& reads_back(plain_style(), v)
            &&& decode_text(encode_text(v, indent)) == Ok::<Val, Text>(back)
            &&& decode_text(minified(encode_text(v, indent))) == Ok::<Val, Text>(back)
            &&& val_eq(back, v)
        }),
{
    match v {
        Val::Object(o) => {
            lemma_entries_neat(o, 0, true);
        },
        Val::Array(a) => {
            if a.len() > 0 {
                lemma_array_neat(a);
            }
        },
        _ => {
            lemma_neat_token(v);
        },
    }
    decoding_undoes_encoding(v, indent);
    decoding_undoes_minified_encoding(v, indent);
}

} // verus!
