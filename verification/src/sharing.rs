//! Parts that occur more than once: documents of ordinary values with
//! definitions, and documents without any.

use vstd::prelude::*;
use vstd::utf8::encode_utf8;
use crate::decoder::decode_text;
use crate::defining::{
    all_distinct, all_read, decoding_undoes_deduplication, definition_reads, definitions_read,
    fields_read, flat_reads, inline_reads, style_for,
};
use crate::encoder::{
    concatenated, encode_text, encoded, is_safe, key_text, last_name, lemma_without_definitions,
    matching_schema, pruned, schema_name, stores_for, trim_char, unsafe_in_key, unsafe_in_value,
    with_repeated, without_text, Manner, Style,
};
use crate::minifier::minified;
use crate::readback::{key_reads, token_reads};
use crate::roundtrip::{
    all_listed, array_reads, entries_read, entry_reads, is_free_key, label_reads, lemma_calm_even,
    read_back, reads_back,
};
use crate::scan::{escape, escaped};
use crate::schema_registry::{
    defined, entries_plain, is_plain, items_plain, no_stores, DefType, Stores,
};
use crate::text::{
    find, find_text, is_space, lemma_find_from, lemma_find_text, split, split_text, Text,
};
use crate::treehash::{
    below, collected, collected_entries, collected_items, collected_list, counted, hex_text,
    is_lower_hex, item_path, lemma_hex_text, list_path, registered, root_digest, visited, xxh3_hash,
    Tallies, Tally,
};
use crate::value::{
    distinct, entries_well_keyed, entry, has_key, is_simple, items_well_keyed, key_index, keys,
    lemma_entry_smaller, lemma_item_smaller, lemma_key_index, put, val_eq, well_keyed, Entries, Val,
};

verus! {

// ---------------------------------------------------------------------------
// Nothing occurs twice

/// The parts of a value, in the order in which they are met: the objects inside
/// it with more than one entry. An array that is an item of another is not
/// looked into.
pub open spec fn parts(v: Val) -> Seq<Val>
    decreases v, 0int,
{
    match v {
        Val::Object(o) => entry_parts(o, 0),
        Val::Array(a) => item_parts(a, 0),
        _ => seq![],
    }
}

/// A value that is a part, with its own parts.
pub open spec fn own_parts(v: Val) -> Seq<Val>
    decreases v, 1int,
{
    match v {
        Val::Object(o) => if o.len() >= 2 {
            seq![v] + parts(v)
        } else {
            parts(v)
        },
        _ => seq![],
    }
}

/// The parts of the entries from `i` on.
pub open spec fn entry_parts(o: Entries, i: int) -> Seq<Val>
    decreases o, o.len() - i,
{
    if 0 <= i < o.len() {
        (match o[i].1 {
            Val::Array(a) => item_parts(a, 0),
            _ => own_parts(o[i].1),
        }) + entry_parts(o, i + 1)
    } else {
        seq![]
    }
}

/// The parts of the items from `i` on.
pub open spec fn item_parts(a: Seq<Val>, i: int) -> Seq<Val>
    decreases a, a.len() - i,
{
    if 0 <= i < a.len() {
        own_parts(a[i]) + item_parts(a, i + 1)
    } else {
        seq![]
    }
}

/// The digests of values.
pub open spec fn digests(p: Seq<Val>) -> Seq<Text> {
    Seq::new(p.len(), |i: int| root_digest(p[i]))
}

/// Whether everything that was counted was met once.
pub open spec fn all_once(t: Tallies) -> bool {
    forall|i: int| 0 <= i < t.len() ==> (#[trigger] t[i]).1.count == 1
}

/// Whether `t` is `s` with the values of `p` counted, each of them once.
pub open spec fn counts(s: Tallies, p: Seq<Val>, t: Tallies) -> bool {
    all_once(t) && keys(t) == keys(s) + digests(p)
}

/// The first values counted, and the others behind them.
proof fn lemma_counts(s: Tallies, p: Seq<Val>, q: Seq<Val>)
    requires
        (keys(s) + digests(p + q)).no_duplicates(),
    ensures
        (keys(s) + digests(p)).no_duplicates(),
        keys(s) + digests(p + q) == keys(s) + digests(p) + digests(q),
{
    let all = keys(s) + digests(p + q);
    assert(digests(p + q) =~= digests(p) + digests(q));
    let some = keys(s) + digests(p);
    assert(all =~= some + digests(q));
    assert forall|i: int, j: int| 0 <= i < some.len() && 0 <= j < some.len() && i != j implies some[i]
        != some[j] by {
        assert(all[i] == some[i] && all[j] == some[j]);
    }
}

/// One value counted that was not met before.
proof fn lemma_registered(s: Tallies, v: Val, path: Text)
    requires
        all_once(s),
        (keys(s) + digests(seq![v])).no_duplicates(),
    ensures
        counts(s, seq![v], registered(s, v, path)),
{
    let hash = root_digest(v);
    let all = keys(s) + digests(seq![v]);
    lemma_key_index(s, hash);
    if has_key(s, hash) {
        let i = key_index(s, hash);
        assert(all[i] == hash);
        assert(all[s.len() as int] == hash);
    }
    let t = registered(s, v, path);
    assert(t == s.push((hash, Tally { count: 1, path, data: v })));
    assert(keys(t) =~= all);
}

/// The parts of a value are counted.
proof fn lemma_collected(v: Val, path: Text, s: Tallies)
    requires
        all_once(s),
        (keys(s) + digests(parts(v))).no_duplicates(),
    ensures
        counts(s, parts(v), collected(v, path, s, 2)),
    decreases v, 0int,
{
    match v {
        Val::Object(o) => {
            assert(decreases_to!(v => o));
            lemma_collected_entries(o, path, s, 0);
        },
        Val::Array(a) => {
            assert(decreases_to!(v => a));
            lemma_collected_list(a, path, s, 0);
        },
        _ => {
            assert(keys(s) + digests(seq![]) =~= keys(s));
        },
    }
}

/// A value and its parts are counted.
proof fn lemma_visited(v: Val, path: Text, s: Tallies)
    requires
        all_once(s),
        (keys(s) + digests(own_parts(v))).no_duplicates(),
    ensures
        counts(s, own_parts(v), visited(v, path, s, 2)),
    decreases v, 1int,
{
    match v {
        Val::Object(o) => {
            if o.len() == 0 {
                assert(parts(v) =~= seq![]);
                assert(keys(s) + digests(seq![]) =~= keys(s));
            } else if o.len() >= 2 {
                lemma_counts(s, seq![v], parts(v));
                lemma_registered(s, v, path);
                lemma_collected(v, path, registered(s, v, path));
            } else {
                lemma_collected(v, path, s);
            }
        },
        _ => {
            assert(keys(s) + digests(seq![]) =~= keys(s));
        },
    }
}

/// The parts of the entries from `i` on are counted.
proof fn lemma_collected_entries(o: Entries, path: Text, s: Tallies, i: int)
    requires
        0 <= i <= o.len(),
        all_once(s),
        (keys(s) + digests(entry_parts(o, i))).no_duplicates(),
    ensures
        counts(s, entry_parts(o, i), collected_entries(o, path, s, 2, i)),
    decreases o, o.len() - i,
{
    if i < o.len() {
        let v = o[i].1;
        let child = below(path, o[i].0);
        lemma_entry_smaller(o, i);
        match v {
            Val::Array(a) => {
                assert(decreases_to!(v => a));
                lemma_counts(s, item_parts(a, 0), entry_parts(o, i + 1));
                lemma_collected_items(a, child, s, 0);
                let next = collected_items(a, child, s, 2, 0);
                lemma_collected_entries(o, path, next, i + 1);
            },
            _ => {
                lemma_counts(s, own_parts(v), entry_parts(o, i + 1));
                lemma_visited(v, child, s);
                let next = visited(v, child, s, 2);
                lemma_collected_entries(o, path, next, i + 1);
            },
        }
    } else {
        assert(keys(s) + digests(seq![]) =~= keys(s));
    }
}

/// The parts of the items of a list under a key are counted.
proof fn lemma_collected_items(a: Seq<Val>, path: Text, s: Tallies, i: int)
    requires
        0 <= i <= a.len(),
        all_once(s),
        (keys(s) + digests(item_parts(a, i))).no_duplicates(),
    ensures
        counts(s, item_parts(a, i), collected_items(a, path, s, 2, i)),
    decreases a, a.len() - i,
{
    if i < a.len() {
        lemma_item_smaller(a, i);
        lemma_counts(s, own_parts(a[i]), item_parts(a, i + 1));
        lemma_visited(a[i], item_path(path, i), s);
        lemma_collected_items(a, path, visited(a[i], item_path(path, i), s, 2), i + 1);
    } else {
        assert(keys(s) + digests(seq![]) =~= keys(s));
    }
}

/// The parts of the items of a list are counted.
proof fn lemma_collected_list(a: Seq<Val>, path: Text, s: Tallies, i: int)
    requires
        0 <= i <= a.len(),
        all_once(s),
        (keys(s) + digests(item_parts(a, i))).no_duplicates(),
    ensures
        counts(s, item_parts(a, i), collected_list(a, path, s, 2, i)),
    decreases a, a.len() - i,
{
    if i < a.len() {
        lemma_item_smaller(a, i);
        lemma_counts(s, own_parts(a[i]), item_parts(a, i + 1));
        lemma_visited(a[i], list_path(path, i), s);
        lemma_collected_list(a, path, visited(a[i], list_path(path, i), s, 2), i + 1);
    } else {
        assert(keys(s) + digests(seq![]) =~= keys(s));
    }
}

/// Where everything was met once, nothing is defined.
proof fn lemma_none_repeated(s: Stores, t: Tallies, i: int)
    requires
        0 <= i <= t.len(),
        all_once(t),
    ensures
        with_repeated(s, t, i) == s,
    decreases t.len() - i,
{
    if i < t.len() {
        assert(t[i].1.count == 1);
        lemma_none_repeated(s, t, i + 1);
    }
}

/// An encoder that defines repeated parts writes what an encoder without
/// definitions writes, where no two parts of the value have the same digest.
pub proof fn nothing_is_defined_without_repeats(m: Manner, v: Val)
    requires
        m.stores == no_stores(),
        m.delimiter == ',',
        m.auto,
        digests(parts(v)).no_duplicates(),
    ensures
        encoded(m, v, seq![]) == encode_text(v, m.indent),
{
    let s: Tallies = seq![];
    assert(keys(s) + digests(parts(v)) =~= digests(parts(v)));
    lemma_collected(v, seq![], s);
    lemma_none_repeated(m.stores, collected(v, seq![], s, 2), 0);
    assert(stores_for(m, v) == no_stores());
    let other = Manner { auto: false, ..m };
    assert(stores_for(other, v) == no_stores());
    lemma_without_definitions(other, v, seq![]);
    let t = encoded(other, v, seq![]);
    assert(encoded(m, v, seq![]) == pruned(seq![], t));
    assert(Seq::<char>::empty() + encode_text(v, m.indent) =~= encode_text(v, m.indent));
}

// ---------------------------------------------------------------------------
// Ordinary values

/// Whether all characters can stand in a word: none is white space, and none
/// has a meaning.
pub open spec fn all_word(t: Text) -> bool {
    forall|i: int| 0 <= i < t.len() ==> !unsafe_in_key(#[trigger] t[i]) && !is_space(t[i])
}

/// Whether a key is a word that does not announce a definition.
pub open spec fn is_ordinary_key(k: Text) -> bool {
    k.len() > 0 && all_word(k) && is_free_key(k)
}

/// Whether a value is ordinary: the keys in it are words, no object has a key
/// twice, arrays hold only primitives, and the primitives read back.
pub open spec fn is_ordinary(v: Val) -> bool
    decreases v, 0int,
{
    match v {
        Val::Array(a) => a.len() <= usize::MAX && all_listed(a),
        Val::Object(o) => distinct(o) && entries_ordinary(o, 0),
        _ => token_reads(v),
    }
}

/// Whether the entries from `i` on are ordinary.
pub open spec fn entries_ordinary(o: Entries, i: int) -> bool
    decreases o, o.len() - i,
{
    if 0 <= i < o.len() {
        is_ordinary_key(o[i].0) && is_ordinary(o[i].1) && entries_ordinary(o, i + 1)
    } else {
        true
    }
}

/// An entry among ordinary entries.
proof fn lemma_entry_ordinary(o: Entries, i: int, k: int)
    requires
        entries_ordinary(o, i),
        0 <= i <= k < o.len(),
    ensures
        is_ordinary_key(o[k].0),
        is_ordinary(o[k].1),
    decreases k - i,
{
    if i < k {
        lemma_entry_ordinary(o, i + 1, k);
    }
}

/// What primitives hold has no keys and no references in it.
proof fn lemma_simple_items(a: Seq<Val>, i: int)
    requires
        0 <= i <= a.len(),
        all_listed(a),
    ensures
        items_plain(a, i),
        items_well_keyed(a, i),
    decreases a.len() - i,
{
    if i < a.len() {
        assert(is_simple(a[i]));
        assert(is_plain(a[i]));
        assert(well_keyed(a[i]));
        lemma_simple_items(a, i + 1);
    }
}

/// An ordinary value reads back from one line, holds no references and no key
/// twice.
proof fn lemma_ordinary(v: Val)
    requires
        is_ordinary(v),
    ensures
        inline_reads(v),
        is_plain(v),
        well_keyed(v),
    decreases v, 0int,
{
    match v {
        Val::Array(a) => {
            lemma_simple_items(a, 0);
            assert forall|i: int| 0 <= i < a.len() implies flat_reads(#[trigger] a[i]) by {
                assert(is_simple(a[i]));
            }
        },
        Val::Object(o) => {
            assert(decreases_to!(v => o));
            lemma_ordinary_entries(o, 0);
        },
        _ => {},
    }
}

/// Ordinary entries read back from one line, hold no references and no key
/// twice.
proof fn lemma_ordinary_entries(o: Entries, i: int)
    requires
        0 <= i <= o.len(),
        entries_ordinary(o, i),
    ensures
        fields_read(o, i),
        entries_plain(o, i),
        entries_well_keyed(o, i),
    decreases o, o.len() - i,
{
    if i < o.len() {
        lemma_entry_smaller(o, i);
        lemma_ordinary(o[i].1);
        lemma_word(o[i].0);
        assert(is_ordinary(o[i].1));
        if let Val::Object(x) = o[i].1 {
            lemma_no_reference_key(x, "@ref"@);
            lemma_no_reference_key(x, "@polymorphic"@);
        }
        lemma_ordinary_entries(o, i + 1);
    }
}

/// No key of an ordinary object marks a reference.
proof fn lemma_no_reference_key(x: Entries, k: Text)
    requires
        entries_ordinary(x, 0),
        k == "@ref"@ || k == "@polymorphic"@,
    ensures
        !has_key(x, k),
{
    reveal_strlit("@ref");
    reveal_strlit("@polymorphic");
    lemma_key_index(x, k);
    if has_key(x, k) {
        let i = key_index(x, k);
        lemma_entry_ordinary(x, 0, i);
        assert(unsafe_in_key(x[i].0[0]));
    }
}

// ---------------------------------------------------------------------------
// Words

/// What is between the ends of a word has the characters of a word.
proof fn lemma_word_part(t: Text, a: int, b: int)
    requires
        all_word(t),
        0 <= a <= b <= t.len(),
    ensures
        all_word(t.subrange(a, b)),
{
    let p = t.subrange(a, b);
    assert forall|i: int| 0 <= i < p.len() implies !unsafe_in_key(#[trigger] p[i]) && !is_space(
        p[i],
    ) by {
        assert(p[i] == t[a + i]);
    }
}

/// Words one behind the other have the characters of a word.
proof fn lemma_word_concat(a: Text, b: Text)
    requires
        all_word(a),
        all_word(b),
    ensures
        all_word(a + b),
{
    let t = a + b;
    assert forall|i: int| 0 <= i < t.len() implies !unsafe_in_key(#[trigger] t[i]) && !is_space(
        t[i],
    ) by {
        if i < a.len() {
            assert(t[i] == a[i]);
        } else {
            assert(t[i] == b[i - a.len()]);
        }
    }
}

/// A word without characters at its ends.
proof fn lemma_word_trim(t: Text, c: char)
    requires
        all_word(t),
    ensures
        all_word(trim_char(t, c)),
    decreases t.len(),
{
    if t.len() > 0 && t[0] == c {
        lemma_word_part(t, 1, t.len() as int);
        lemma_word_trim(t.subrange(1, t.len() as int), c);
    } else if t.len() > 0 && t.last() == c {
        lemma_word_part(t, 0, t.len() - 1);
        assert(t.drop_last() =~= t.subrange(0, t.len() - 1));
        lemma_word_trim(t.drop_last(), c);
    }
}

/// Whether all texts have the characters of words.
pub open spec fn all_words(s: Seq<Text>) -> bool {
    forall|i: int| 0 <= i < s.len() ==> all_word(#[trigger] s[i])
}

/// A word and others behind it.
proof fn lemma_words_behind(t: Text, s: Seq<Text>)
    requires
        all_word(t),
        all_words(s),
    ensures
        all_words(seq![t] + s),
{
    let r = seq![t] + s;
    assert forall|i: int| 0 <= i < r.len() implies all_word(#[trigger] r[i]) by {
        if i > 0 {
            assert(r[i] == s[i - 1]);
        }
    }
}

/// What a word is split into.
proof fn lemma_word_split(t: Text, c: char)
    requires
        all_word(t),
    ensures
        all_words(split(t, c)),
    decreases t.len(),
{
    lemma_find_from(t, c, 0);
    if let Some(k) = find(t, c) {
        let rest = t.subrange(k + 1, t.len() as int);
        lemma_word_part(t, 0, k);
        lemma_word_part(t, k + 1, t.len() as int);
        lemma_word_split(rest, c);
        lemma_words_behind(t.subrange(0, k), split(rest, c));
    }
}

/// What a word is split into at a text.
proof fn lemma_word_split_text(t: Text, p: Text)
    requires
        all_word(t),
    ensures
        all_words(split_text(t, p)),
    decreases t.len(),
{
    lemma_find_text(t, p, 0);
    if let Some(k) = find_text(t, p, 0) {
        if p.len() > 0 {
            let rest = t.subrange(k + p.len(), t.len() as int);
            lemma_word_part(t, 0, k);
            lemma_word_part(t, k + p.len(), t.len() as int);
            lemma_word_split_text(rest, p);
            lemma_words_behind(t.subrange(0, k), split_text(rest, p));
        }
    }
}

/// Words put together.
proof fn lemma_word_concatenated(s: Seq<Text>, i: int)
    requires
        0 <= i <= s.len(),
        all_words(s),
    ensures
        all_word(concatenated(s, i)),
    decreases s.len() - i,
{
    if i < s.len() {
        lemma_word_concatenated(s, i + 1);
        lemma_word_concat(s[i], concatenated(s, i + 1));
    }
}

/// A word without the occurrences of a text.
proof fn lemma_word_without(t: Text, p: Text)
    requires
        all_word(t),
    ensures
        all_word(without_text(t, p)),
{
    lemma_word_split_text(t, p);
    lemma_word_concatenated(split_text(t, p), 0);
}

/// The last of some words.
proof fn lemma_word_last(s: Seq<Text>)
    requires
        all_words(s),
    ensures
        all_word(last_name(s)),
    decreases s.len(),
{
    if s.len() > 0 {
        let less = s.drop_last();
        assert forall|i: int| 0 <= i < less.len() implies all_word(#[trigger] less[i]) by {
            assert(less[i] == s[i]);
        }
        lemma_word_last(less);
        assert(all_word(s[s.len() - 1]));
    }
}

/// The name under which a part at a path of words is defined is a word.
proof fn lemma_name(path: Text)
    requires
        all_word(path),
    ensures
        label_reads(schema_name(path)),
{
    lemma_word_trim(path, '.');
    let ps = split(trim_char(path, '.'), '.');
    lemma_word_split(trim_char(path, '.'), '.');
    lemma_word_last(ps);
    let last = last_name(ps);
    let one = without_text(last, "properties"@);
    let two = without_text(one, "content"@);
    let three = without_text(two, "application/json"@);
    let four = without_text(three, "schema"@);
    lemma_word_without(last, "properties"@);
    lemma_word_without(one, "content"@);
    lemma_word_without(two, "application/json"@);
    lemma_word_without(three, "schema"@);
    lemma_word_trim(four, '.');
    if trim_char(four, '.').len() == 0 {
        lemma_hash_name(xxh3_hash(encode_utf8(path)) as nat);
    }
    lemma_label(schema_name(path));
}

/// A name made of a hash is a word.
proof fn lemma_hash_name(n: nat)
    ensures
        all_word("auto_"@ + hex_text(n, 6)),
        ("auto_"@ + hex_text(n, 6)).len() > 0,
{
    reveal_strlit("auto_");
    lemma_hex_text(n, 6);
    let h = hex_text(n, 6);
    assert forall|i: int| 0 <= i < h.len() implies !unsafe_in_key(#[trigger] h[i]) && !is_space(
        h[i],
    ) by {
        assert(is_lower_hex(h[i]));
    }
    assert(all_word("auto_"@));
    lemma_word_concat("auto_"@, h);
}

/// A word reads back as the name of a definition.
proof fn lemma_label(t: Text)
    requires
        t.len() > 0,
        all_word(t),
    ensures
        label_reads(t),
{
    assert forall|i: int| 0 <= i < t.len() implies t[i] != '{' && t[i] != ';' && t[i] != '"'
        && t[i] != '}' && t[i] != '[' && t[i] != ']' by {
        assert(!unsafe_in_key(t[i]));
    }
    assert(!unsafe_in_key(t[t.len() - 1]));
    lemma_calm_even(t);
}

/// A word is written as it is inside quotes.
proof fn lemma_word_escape(t: Text)
    requires
        all_word(t),
    ensures
        escape(t) == t,
    decreases t.len(),
{
    if t.len() > 0 {
        let rest = t.subrange(1, t.len() as int);
        lemma_word_part(t, 1, t.len() as int);
        lemma_word_escape(rest);
        assert(!unsafe_in_key(t[0]) && !is_space(t[0]));
        assert(escaped(t[0]) == seq![t[0]]);
        assert(seq![t[0]] + rest =~= t);
    }
}

/// A key that is a word reads back.
proof fn lemma_word(k: Text)
    requires
        k.len() > 0,
        all_word(k),
    ensures
        key_reads(k),
        key_text(k) == k,
{
    lemma_word_escape(k);
    assert forall|i: int| 0 <= i < k.len() implies k[i] != '\n' && k[i] != '[' && k[i] != ':' by {
        assert(!unsafe_in_key(k[i]) && !is_space(k[i]));
    }
    assert(!is_space(k[0]) && !is_space(k[k.len() - 1]));
}

// ---------------------------------------------------------------------------
// Definitions that are made

/// Whether what was counted is ordinary, and was met at a path of words.
pub open spec fn tallies_ordinary(t: Tallies) -> bool {
    forall|i: int|
        0 <= i < t.len() ==> is_ordinary((#[trigger] t[i]).1.data) && all_word(t[i].1.path)
}

/// One more part counted.
proof fn lemma_counted_ordinary(s: Tallies, v: Val, path: Text)
    requires
        tallies_ordinary(s),
        is_ordinary(v),
        all_word(path),
    ensures
        tallies_ordinary(registered(s, v, path)),
{
    let hash = root_digest(v);
    let t = registered(s, v, path);
    lemma_key_index(s, hash);
    assert forall|i: int| 0 <= i < t.len() implies is_ordinary((#[trigger] t[i]).1.data)
        && all_word(t[i].1.path) by {
        if has_key(s, hash) {
            let k = key_index(s, hash);
            assert(is_ordinary(s[k].1.data));
            if i != k {
                assert(t[i] == s[i]);
            }
        } else if i < s.len() {
            assert(t[i] == s[i]);
        }
    }
}

/// The path of an entry with an ordinary key.
proof fn lemma_path_below(path: Text, k: Text)
    requires
        all_word(path),
        all_word(k),
    ensures
        all_word(below(path, k)),
{
    reveal_strlit(".");
    assert(all_word("."@));
    lemma_word_concat(path, "."@);
    lemma_word_concat(path + "."@, k);
}

/// The parts of ordinary entries are counted.
proof fn lemma_parts_ordinary(o: Entries, path: Text, s: Tallies, i: int)
    requires
        0 <= i <= o.len(),
        entries_ordinary(o, i),
        all_word(path),
        tallies_ordinary(s),
    ensures
        tallies_ordinary(collected_entries(o, path, s, 2, i)),
    decreases o, o.len() - i,
{
    if i < o.len() {
        let v = o[i].1;
        let child = below(path, o[i].0);
        lemma_entry_smaller(o, i);
        lemma_path_below(path, o[i].0);
        assert(is_ordinary(v));
        match v {
            Val::Array(a) => {
                lemma_no_parts(a, child, s, 0);
                lemma_parts_ordinary(o, path, s, i + 1);
                assert(collected_entries(o, path, s, 2, i) == collected_entries(
                    o,
                    path,
                    s,
                    2,
                    i + 1,
                ));
            },
            Val::Object(x) => {
                assert(decreases_to!(v => x));
                if x.len() >= 2 {
                    lemma_counted_ordinary(s, v, child);
                    lemma_parts_ordinary(x, child, registered(s, v, child), 0);
                } else {
                    lemma_parts_ordinary(x, child, s, 0);
                }
                let next = visited(v, child, s, 2);
                assert(tallies_ordinary(next)) by {
                    assert(collected(v, child, s, 2) == collected_entries(x, child, s, 2, 0));
                    let r = registered(s, v, child);
                    assert(collected(v, child, r, 2) == collected_entries(x, child, r, 2, 0));
                }
                lemma_parts_ordinary(o, path, next, i + 1);
            },
            _ => {
                assert(visited(v, child, s, 2) == s);
                lemma_parts_ordinary(o, path, s, i + 1);
            },
        }
    }
}

/// There are no parts among primitives.
proof fn lemma_no_parts(a: Seq<Val>, path: Text, s: Tallies, i: int)
    requires
        0 <= i <= a.len(),
        all_listed(a),
    ensures
        collected_items(a, path, s, 2, i) == s,
    decreases a.len() - i,
{
    if i < a.len() {
        assert(is_simple(a[i]));
        assert(visited(a[i], item_path(path, i), s, 2) == s);
        lemma_no_parts(a, path, s, i + 1);
    }
}

/// A definition that reads back, put among others that do.
proof fn lemma_put_reads(d: Entries, k: Text, v: Val)
    requires
        definitions_read(d),
        definition_reads((k, v)),
    ensures
        definitions_read(put(d, k, v)),
{
    let r = put(d, k, v);
    lemma_key_index(d, k);
    assert forall|i: int| 0 <= i < r.len() implies definition_reads(#[trigger] r[i]) by {
        if i < d.len() {
            assert(definition_reads(d[i]));
        }
    }
}

/// The definitions that are made of ordinary parts read back.
proof fn lemma_made_read(s: Stores, t: Tallies, i: int)
    requires
        0 <= i <= t.len(),
        all_read(s),
        tallies_ordinary(t),
    ensures
        all_read(with_repeated(s, t, i)),
    decreases t.len() - i,
{
    if i < t.len() {
        let name = schema_name(t[i].1.path);
        let data = t[i].1.data;
        if t[i].1.count >= 2 {
            lemma_name(t[i].1.path);
            lemma_ordinary(data);
            lemma_put_reads(s.schemas, name, data);
            lemma_made_read(defined(s, DefType::Schema, name, data), t, i + 1);
        } else {
            lemma_made_read(s, t, i + 1);
        }
    }
}

/// The name of a definition that an object equals reads back.
proof fn lemma_matching_reads(d: Entries, v: Val, i: int)
    requires
        0 <= i <= d.len(),
        definitions_read(d),
    ensures
        matching_schema(d, v, i) matches Some(name) ==> label_reads(name),
    decreases d.len() - i,
{
    if i < d.len() {
        assert(definition_reads(d[i]));
        lemma_matching_reads(d, v, i + 1);
    }
}

/// An ordinary array reads back.
proof fn lemma_array_ordinary(e: Style, a: Seq<Val>)
    requires
        a.len() <= usize::MAX,
        all_listed(a),
    ensures
        array_reads(e, a),
{
    assert forall|i: int| 0 <= i < a.len() implies is_simple(#[trigger] a[i]) by {}
}

/// Ordinary entries read back.
proof fn lemma_entries_ordinary(e: Style, o: Entries, i: int)
    requires
        0 <= i <= o.len(),
        entries_ordinary(o, i),
        definitions_read(e.schemas),
    ensures
        entries_read(e, o, i, true),
    decreases o, o.len() - i,
{
    if i < o.len() {
        let k = o[i].0;
        let v = o[i].1;
        lemma_entry_smaller(o, i);
        assert(is_ordinary(v));
        lemma_word(k);
        match v {
            Val::Array(a) => {
                lemma_array_ordinary(e, a);
            },
            Val::Object(x) => {
                assert(decreases_to!(v => x));
                lemma_matching_reads(e.schemas, v, 0);
                lemma_entries_ordinary(e, x, 0);
            },
            _ => {},
        }
        assert(entry_reads(e, k, v, true));
        lemma_entries_ordinary(e, o, i + 1);
    }
}

/// A string of printable ASCII characters is ordinary, and so is an array that
/// holds it.
pub proof fn printable_strings_are_ordinary(s: Text)
    requires
        forall|i: int| 0 <= i < s.len() ==> ' ' <= #[trigger] s[i] <= '~',
    ensures
        is_ordinary(Val::Str(s)),
        is_ordinary(Val::Array(seq![Val::Str(s)])),
{
    if is_safe(s, ',') {
        assert forall|i: int| 0 <= i < s.len() implies !is_space(#[trigger] s[i]) && s[i] != '\n' by {
            assert(!unsafe_in_value(s[i]));
        }
        assert(!is_space(s[0]) && !is_space(s[s.len() - 1]));
    }
}

/// Ordinary objects are read back from a document with definitions, whether they
/// were given or made of the parts that occur more than once: the definitions
/// that are made read back, and so does the value. The document, and the same on
/// one line, hold a value that equals the one that was written.
pub proof fn ordinary_objects_come_back(m: Manner, o: Entries)
    requires
        m.delimiter == ',',
        m.indent >= 1,
        all_distinct(m.stores),
        all_read(m.stores),
        is_ordinary(Val::Object(o)),
    ensures
        ({
            let v = Val::Object(o);
            let text = encoded(m, v, seq![]);
            let back = read_back(style_for(m, v), v);
            &&& all_read(stores_for(m, v))
            &&& reads_back(style_for(m, v), v)
            &&& decode_text(text) == Ok::<Val, Text>(back)
            &&& decode_text(minified(text)) == Ok::<Val, Text>(back)
            &&& val_eq(back, v)
        }),
{
    let v = Val::Object(o);
    lemma_ordinary(v);
    let t = collected(v, seq![], seq![], 2);
    lemma_parts_ordinary(o, seq![], seq![], 0);
    lemma_made_read(m.stores, t, 0);
    lemma_entries_ordinary(style_for(m, v), o, 0);
    decoding_undoes_deduplication(m, v);
}

} // verus!
