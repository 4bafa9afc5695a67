//! Writing a document: from a value to text.

use vstd::prelude::*;
use vstd::utf8::encode_utf8;
use crate::lines::Line;
use crate::number::{integer_text, integer_to_text, is_digit, length_of, parse_length};
use crate::scan::{escape, push_escaped};
use crate::schema_registry::{defined, no_stores, string_texts, DefType, SchemaRegistry, Stores};
use crate::text::{
    begins, chars_of, holds, holds_text, line_list, lines, owned, part, pieces, same_text, split,
    split_text, starts_with, text_pieces, texts, Text,
};
use crate::treehash::{collected, hex_text, to_hex, xxh3_hash, Tallies, TreeHash};
use crate::value::{
    compact_as_str, entry, is_simple, keys, lemma_entry_smaller, lemma_item_smaller, lemma_models,
    models, val_eq, values_equal, Entries, SconMap, Val, Value,
};

verus! {

// ---------------------------------------------------------------------------
// How tokens are written

/// Whether `c` makes a string need quotes.
pub open spec fn unsafe_in_value(c: char) -> bool {
    c == ' ' || c == '\t' || c == ':' || c == '"' || c == '\\' || c == ';' || c == '@' || c == '#'
        || c == '{' || c == '[' || c == ']' || c == '}'
}

/// Whether `c` makes a key need quotes.
pub open spec fn unsafe_in_key(c: char) -> bool {
    unsafe_in_value(c) || c == ','
}

/// Whether the low byte of the code of `d` stands in the bytes of `s`.
pub open spec fn holds_delimiter(s: Text, d: char) -> bool {
    encode_utf8(s).contains((d as u32 % 256) as u8)
}

/// Whether the string `s` needs no quotes: it would not be read as anything
/// else, and none of its characters has a meaning.
pub open spec fn is_safe(s: Text, d: char) -> bool {
    &&& s.len() > 0
    &&& s != "true"@ && s != "false"@ && s != "null"@
    &&& !(is_digit(s[0]) || s[0] == '+' || s[0] == '-' || s[0] == '.')
    &&& forall|i: int| 0 <= i < s.len() ==> !unsafe_in_value(#[trigger] s[i])
    &&& !holds_delimiter(s, d)
}

/// Whether the key `s` needs no quotes.
pub open spec fn is_plain_key(s: Text) -> bool {
    s.len() > 0 && forall|i: int| 0 <= i < s.len() ==> !unsafe_in_key(#[trigger] s[i])
}

/// `s` in quotes.
pub open spec fn quoted(s: Text) -> Text {
    seq!['"'] + escape(s) + seq!['"']
}

/// How the string `s` is written.
pub open spec fn string_text(s: Text, d: char) -> Text {
    if is_safe(s, d) {
        s
    } else {
        quoted(s)
    }
}

/// How the key `s` is written.
pub open spec fn key_text(s: Text) -> Text {
    if is_plain_key(s) {
        s
    } else {
        quoted(s)
    }
}

/// How a primitive is written.
pub open spec fn primitive_text(v: Val, d: char) -> Text {
    match v {
        Val::Null => "null"@,
        Val::Bool(b) => if b {
            "true"@
        } else {
            "false"@
        },
        Val::Integer(n) => integer_text(n as int),
        Val::Float(t) => t,
        Val::Str(s) => string_text(s, d),
        _ => seq![],
    }
}

/// Texts with a separator between them, from the `i`-th on.
pub open spec fn joined(parts: Seq<Text>, sep: Text, i: int) -> Text
    decreases parts.len() - i,
{
    if 0 <= i < parts.len() {
        (if i > 0 {
            sep
        } else {
            seq![]
        }) + parts[i] + joined(parts, sep, i + 1)
    } else {
        seq![]
    }
}

/// How the items of an array of primitives are written.
pub open spec fn primitive_texts(a: Seq<Val>, d: char) -> Seq<Text> {
    Seq::new(a.len(), |i: int| primitive_text(a[i], d))
}

/// The separator between the values on a line.
pub open spec fn separator(d: char) -> Text {
    seq![d, ' ']
}

/// Whether all items are primitives.
pub open spec fn all_simple(a: Seq<Val>) -> bool {
    forall|i: int| 0 <= i < a.len() ==> is_simple(#[trigger] a[i])
}

/// Whether `v` is an object that has exactly as many entries as `fields` has
/// keys, and a primitive under each.
pub open spec fn is_row(v: Val, fields: Seq<Text>) -> bool {
    match v {
        Val::Object(o) => o.len() == fields.len() && forall|k: int|
            0 <= k < fields.len() ==> match entry(o, #[trigger] fields[k]) {
                Some(x) => is_simple(x),
                None => false,
            },
        _ => false,
    }
}

/// The fields of an array that can be written as a table: objects with the same
/// keys and only primitives under them.
pub open spec fn table_fields(a: Seq<Val>) -> Option<Seq<Text>> {
    if a.len() > 0 {
        match a[0] {
            Val::Object(o) => if o.len() > 0 && (forall|k: int|
                0 <= k < o.len() ==> is_simple((#[trigger] o[k]).1)) && (forall|i: int|
                1 <= i < a.len() ==> is_row(#[trigger] a[i], keys(o))) {
                Some(keys(o))
            } else {
                None
            },
            _ => None,
        }
    } else {
        None
    }
}

/// What is written in a row for each field.
pub open spec fn row_texts(o: Entries, fields: Seq<Text>, d: char) -> Seq<Text> {
    Seq::new(
        fields.len(),
        |k: int|
            match entry(o, fields[k]) {
                Some(x) => primitive_text(x, d),
                None => "null"@,
            },
    )
}

/// How the fields of a table are written.
pub open spec fn field_texts(fields: Seq<Text>) -> Seq<Text> {
    Seq::new(fields.len(), |k: int| key_text(fields[k]))
}

// ---------------------------------------------------------------------------
// The lines that are written

/// What an encoder goes by: the delimiter between values, and the definitions
/// that an object may be written as a reference to.
pub struct Style {
    pub delimiter: char,
    pub schemas: Entries,
}

/// The name of the first definition from `i` on that equals `v`.
pub open spec fn matching_schema(s: Entries, v: Val, i: int) -> Option<Text>
    decreases s.len() - i,
{
    if 0 <= i < s.len() {
        if val_eq(v, s[i].1) {
            Some(s[i].0)
        } else {
            matching_schema(s, v, i + 1)
        }
    } else {
        None
    }
}

/// The start of the header of an array.
pub open spec fn header_text(key: Text, len: nat) -> Text {
    key + seq!['['] + integer_text(len as int) + seq![']']
}

/// The line for an array of primitives.
pub open spec fn inline_array_text(key: Text, a: Seq<Val>, d: char) -> Text {
    header_text(key, a.len()) + seq![':', ' '] + joined(primitive_texts(a, d), separator(d), 0)
}

/// The lines of the rows of a table from the `i`-th on.
pub open spec fn row_lines(a: Seq<Val>, fields: Seq<Text>, d: char, depth: int, i: int) -> Seq<Line>
    decreases a.len() - i,
{
    if 0 <= i < a.len() {
        (match a[i] {
            Val::Object(o) => seq![
                Line { depth, text: joined(row_texts(o, fields, d), separator(d), 0) },
            ],
            _ => seq![],
        }) + row_lines(a, fields, d, depth, i + 1)
    } else {
        seq![]
    }
}

/// The lines for the entries of an object from the `i`-th on.
pub open spec fn written_entries(e: Style, o: Entries, depth: int, i: int) -> Seq<Line>
    decreases o, o.len() - i,
{
    if 0 <= i < o.len() {
        written_entry(e, o[i].0, o[i].1, depth, true) + written_entries(e, o, depth, i + 1)
    } else {
        seq![]
    }
}

/// The lines for one entry. Where `refs` holds, an object that equals a
/// definition is written as a reference to it.
pub open spec fn written_entry(e: Style, k: Text, v: Val, depth: int, refs: bool) -> Seq<Line>
    decreases v, 0int,
{
    match v {
        Val::Array(a) => written_array(e, key_text(k), true, a, depth, depth + 1),
        Val::Object(o) => if o.len() == 0 {
            seq![Line { depth, text: key_text(k) + ": {}"@ }]
        } else {
            match matching_schema(e.schemas, v, 0) {
                Some(name) if refs => seq![Line { depth, text: key_text(k) + ": @s:"@ + name }],
                _ => seq![Line { depth, text: key_text(k) + ":"@ }] + written_entries(
                    e,
                    o,
                    depth + 1,
                    0,
                ),
            }
        },
        _ => seq![Line { depth, text: key_text(k) + ": "@ + primitive_text(v, e.delimiter) }],
    }
}

/// The lines for an array: its values on one line, or a header with the rows of
/// a table or list items at depth `deep` below it. `key` is what stands before
/// it on the line, if anything does.
pub open spec fn written_array(
    e: Style,
    key: Text,
    keyed: bool,
    a: Seq<Val>,
    depth: int,
    deep: int,
) -> Seq<Line>
    decreases a, a.len() + 1,
{
    if a.len() == 0 {
        seq![Line { depth, text: key + (if keyed { ": []"@ } else { "[]"@ }) }]
    } else if all_simple(a) {
        seq![Line { depth, text: inline_array_text(key, a, e.delimiter) }]
    } else {
        match table_fields(a) {
            Some(f) => seq![
                Line {
                    depth,
                    text: header_text(key, a.len()) + seq!['{'] + joined(
                        field_texts(f),
                        seq![e.delimiter],
                        0,
                    ) + "}:"@,
                },
            ] + row_lines(a, f, e.delimiter, deep, 0),
            None => seq![Line { depth, text: header_text(key, a.len()) + ":"@ }] + written_items(
                e,
                a,
                deep,
                0,
            ),
        }
    }
}

/// The lines for the items of an array from the `i`-th on.
pub open spec fn written_items(e: Style, a: Seq<Val>, depth: int, i: int) -> Seq<Line>
    decreases a, a.len() - i,
{
    if 0 <= i < a.len() {
        written_item(e, a[i], depth) + written_items(e, a, depth, i + 1)
    } else {
        seq![]
    }
}

/// The lines for one item. What an array holds stands two levels below the dash
/// where it does not stand behind it.
pub open spec fn written_item(e: Style, v: Val, depth: int) -> Seq<Line>
    decreases v, 0int,
{
    match v {
        Val::Object(o) => if o.len() == 0 {
            seq![Line { depth, text: "- {}"@ }]
        } else {
            match matching_schema(e.schemas, v, 0) {
                Some(name) => seq![Line { depth, text: "- @s:"@ + name }],
                None => written_object_item(e, o, depth),
            }
        },
        Val::Array(a) => if a.len() == 0 {
            seq![Line { depth, text: "- []"@ }]
        } else {
            written_array(e, "- "@, true, a, depth, depth + 2)
        },
        _ => seq![Line { depth, text: "- "@ + primitive_text(v, e.delimiter) }],
    }
}

/// The lines for an object that is a list item: its first entry stands behind
/// the dash, the others below it.
pub open spec fn written_object_item(e: Style, o: Entries, depth: int) -> Seq<Line>
    decreases o, o.len() + 1,
{
    if o.len() == 0 {
        seq![Line { depth, text: "- "@ }]
    } else {
        written_first(e, o[0].0, o[0].1, depth) + written_rest(e, o, depth + 1, 1)
    }
}

/// The lines for the first entry of an object that is a list item. What it holds
/// stands two levels below the dash where it does not stand behind it.
pub open spec fn written_first(e: Style, k: Text, v: Val, depth: int) -> Seq<Line>
    decreases v, 0int,
{
    let start = "- "@ + key_text(k);
    match v {
        Val::Array(a) => written_array(e, start, true, a, depth, depth + 2),
        Val::Object(o) => if o.len() == 0 {
            seq![Line { depth, text: start + ": {}"@ }]
        } else {
            seq![Line { depth, text: start + ":"@ }] + written_entries(e, o, depth + 2, 0)
        },
        _ => seq![Line { depth, text: start + ": "@ + primitive_text(v, e.delimiter) }],
    }
}

/// The lines for the other entries of an object that is a list item, from the
/// `i`-th on.
pub open spec fn written_rest(e: Style, o: Entries, depth: int, i: int) -> Seq<Line>
    decreases o, o.len() - i,
{
    if 0 <= i < o.len() {
        written_entry(e, o[i].0, o[i].1, depth, false) + written_rest(e, o, depth, i + 1)
    } else {
        seq![]
    }
}

/// The lines for a value.
pub open spec fn written_value(e: Style, v: Val) -> Seq<Line> {
    match v {
        Val::Object(o) => if o.len() == 0 {
            seq![Line { depth: 0, text: "{}"@ }]
        } else {
            written_entries(e, o, 0, 0)
        },
        Val::Array(a) => written_array(e, seq![], false, a, 0, 1),
        _ => seq![Line { depth: 0, text: primitive_text(v, e.delimiter) }],
    }
}

// ---------------------------------------------------------------------------
// Definitions

/// How a value is written on one line.
pub open spec fn inline_text(v: Val, d: char) -> Text
    decreases v, 0int,
{
    match v {
        Val::Array(a) => seq!['['] + inline_items(a, d, 0) + seq![']'],
        Val::Object(o) => seq!['{'] + inline_fields(o, d, 0) + seq!['}'],
        _ => primitive_text(v, d),
    }
}

/// How the items from the `i`-th on are written on one line.
pub open spec fn inline_items(a: Seq<Val>, d: char, i: int) -> Text
    decreases a, a.len() - i,
{
    if 0 <= i < a.len() {
        (if i > 0 {
            ", "@
        } else {
            seq![]
        }) + inline_text(a[i], d) + inline_items(a, d, i + 1)
    } else {
        seq![]
    }
}

/// How the entries from the `i`-th on are written on one line.
pub open spec fn inline_fields(o: Entries, d: char, i: int) -> Text
    decreases o, o.len() - i,
{
    if 0 <= i < o.len() {
        (if i > 0 {
            ", "@
        } else {
            seq![]
        }) + key_text(o[i].0) + seq![':'] + inline_text(o[i].1, d) + inline_fields(o, d, i + 1)
    } else {
        seq![]
    }
}

/// The lines for the definitions of one kind.
pub open spec fn definition_lines(prefix: Text, o: Entries, d: char) -> Seq<Line> {
    Seq::new(
        o.len(),
        |i: int|
            Line { depth: 0, text: prefix + o[i].0 + seq![' '] + inline_text(o[i].1, d) },
    )
}

/// `more` behind `done`, with an empty line between them where both hold lines.
pub open spec fn next_group(done: Seq<Line>, more: Seq<Line>) -> Seq<Line> {
    if done.len() > 0 && more.len() > 0 {
        done + seq![Line { depth: 0, text: seq![] }] + more
    } else {
        done + more
    }
}

/// The lines for all definitions, with an empty line between kinds.
pub open spec fn all_definition_lines(s: Stores, d: char) -> Seq<Line> {
    next_group(
        next_group(
            definition_lines("s:"@, s.schemas, d),
            definition_lines("r:"@, s.responses, d),
        ),
        definition_lines("sec:"@, s.security, d),
    )
}

// ---------------------------------------------------------------------------
// Lines as text

/// A row of spaces.
pub open spec fn spaces(n: int) -> Text {
    Seq::new(if n > 0 { n as nat } else { 0 }, |i: int| ' ')
}

/// A line as text.
pub open spec fn line_text(l: Line, indent: nat) -> Text {
    spaces(indent * l.depth) + l.text
}

/// Lines as text, with newlines between them.
pub open spec fn layout(ls: Seq<Line>, indent: nat) -> Text
    decreases ls.len(),
{
    if ls.len() == 0 {
        seq![]
    } else if ls.len() == 1 {
        line_text(ls[0], indent)
    } else {
        layout(ls.drop_last(), indent) + seq!['\n'] + line_text(ls.last(), indent)
    }
}

/// Lines behind lines.
pub proof fn lemma_layout_concat(a: Seq<Line>, b: Seq<Line>, indent: nat)
    requires
        a.len() > 0,
        b.len() > 0,
    ensures
        layout(a + b, indent) == layout(a, indent) + seq!['\n'] + layout(b, indent),
    decreases b.len(),
{
    if b.len() == 1 {
        assert((a + b).drop_last() =~= a);
    } else {
        lemma_layout_concat(a, b.drop_last(), indent);
        assert((a + b).drop_last() =~= a + b.drop_last());
        assert(layout(a + b, indent) =~= layout(a, indent) + seq!['\n'] + layout(b, indent));
    }
}

/// Lines behind lines, of which there may be none.
pub proof fn lemma_layout_append(done: Seq<Line>, more: Seq<Line>, indent: nat)
    requires
        more.len() > 0,
    ensures
        done.len() == 0 ==> layout(done + more, indent) == layout(more, indent),
        done.len() > 0 ==> layout(done + more, indent) == layout(done, indent) + seq!['\n'] + layout(
            more,
            indent,
        ),
{
    if done.len() == 0 {
        assert(done + more =~= more);
    } else {
        lemma_layout_concat(done, more, indent);
    }
}

/// One level more is `indent` spaces more.
proof fn lemma_deeper(indent: nat, depth: int)
    requires
        depth >= 0,
    ensures
        spaces(indent * (depth + 1)) == spaces(indent * depth) + spaces(indent as int),
{
    assert(indent * (depth + 1) == indent * depth + indent) by (nonlinear_arith);
    assert(indent * depth >= 0) by (nonlinear_arith)
        requires
            depth >= 0,
    ;
    assert(spaces(indent * (depth + 1)) =~= spaces(indent * depth) + spaces(indent as int));
}

/// Nothing stands before a line at depth zero.
proof fn lemma_no_spaces(indent: nat)
    ensures
        spaces(indent * 0int) == Seq::<char>::empty(),
{
    assert(indent * 0int == 0) by (nonlinear_arith);
    assert(spaces(indent * 0int) =~= Seq::<char>::empty());
}

/// An entry takes at least one line, and so does an item.
proof fn lemma_some_lines(e: Style, k: Text, v: Val, depth: int, refs: bool)
    ensures
        written_entry(e, k, v, depth, refs).len() >= 1,
        written_item(e, v, depth).len() >= 1,
        written_first(e, k, v, depth).len() >= 1,
{
    reveal_with_fuel(written_entry, 2);
    reveal_with_fuel(written_item, 2);
    reveal_with_fuel(written_first, 2);
    reveal_with_fuel(written_array, 2);
    reveal_with_fuel(written_object_item, 2);
}

// ---------------------------------------------------------------------------
// Writing tokens

/// Whether a character makes a string need quotes.
fn char_is_unsafe(c: char) -> (r: bool)
    ensures
        r == unsafe_in_value(c),
{
    c == ' ' || c == '\t' || c == ':' || c == '"' || c == '\\' || c == ';' || c == '@' || c == '#'
        || c == '{' || c == '[' || c == ']' || c == '}'
}

/// Whether a byte stands in the bytes of a string.
fn has_byte(s: &str, b: u8) -> (r: bool)
    ensures
        r == encode_utf8(s@).contains(b),
{
    let bytes = s.as_bytes();
    memchr::memchr(b, bytes).is_some()
}

/// Whether a string needs no quotes.
fn is_safe_unquoted(s: &str, d: char) -> (r: bool)
    ensures
        r == is_safe(s@, d),
{
    let cs = chars_of(s);
    let n: usize = cs.len();
    if n == 0 || same_text(s, "true") || same_text(s, "false") || same_text(s, "null") {
        return false;
    }
    let first: char = cs[0];
    if ('0' <= first && first <= '9') || first == '+' || first == '-' || first == '.' {
        return false;
    }
    let mut i: usize = 0;
    while i < n
        invariant
            i <= n == cs@.len(),
            cs@ == s@,
            forall|j: int| 0 <= j < i ==> !unsafe_in_value(#[trigger] s@[j]),
        decreases n - i,
    {
        if char_is_unsafe(cs[i]) {
            assert(unsafe_in_value(s@[i as int]));
            return false;
        }
        i += 1;
    }
    let low: u32 = d as u32 % 256;
    !has_byte(s, low as u8)
}

/// Whether a key needs no quotes.
fn is_valid_unquoted_key(s: &str) -> (r: bool)
    ensures
        r == is_plain_key(s@),
{
    let cs = chars_of(s);
    let n: usize = cs.len();
    if n == 0 {
        return false;
    }
    let mut i: usize = 0;
    while i < n
        invariant
            i <= n == cs@.len(),
            cs@ == s@,
            forall|j: int| 0 <= j < i ==> !unsafe_in_key(#[trigger] s@[j]),
        decreases n - i,
    {
        if char_is_unsafe(cs[i]) || cs[i] == ',' {
            assert(unsafe_in_key(s@[i as int]));
            return false;
        }
        i += 1;
    }
    true
}

/// Appends `s` in quotes.
fn write_quoted(s: &str, buf: &mut String)
    ensures
        final(buf)@ == old(buf)@ + quoted(s@),
{
    buf.push('"');
    push_escaped(buf, s);
    buf.push('"');
    assert(buf@ =~= old(buf)@ + quoted(s@));
}

/// Appends a string.
fn write_string(s: &str, d: char, buf: &mut String)
    ensures
        final(buf)@ == old(buf)@ + string_text(s@, d),
{
    if is_safe_unquoted(s, d) {
        buf.push_str(s);
    } else {
        write_quoted(s, buf);
    }
}

/// Appends a key.
fn write_key(s: &str, buf: &mut String)
    ensures
        final(buf)@ == old(buf)@ + key_text(s@),
{
    if is_valid_unquoted_key(s) {
        buf.push_str(s);
    } else {
        write_quoted(s, buf);
    }
}

/// Appends a number of items.
fn write_usize(n: usize, buf: &mut String)
    ensures
        final(buf)@ == old(buf)@ + integer_text(n as int),
{
    buf.push_str(integer_to_text(n as i128).as_str());
}

/// Appends a primitive.
fn write_primitive(v: &Value, d: char, buf: &mut String)
    ensures
        final(buf)@ == old(buf)@ + primitive_text(v@, d),
{
    match v {
        Value::Null => buf.push_str("null"),
        Value::Bool(b) => if *b {
            buf.push_str("true")
        } else {
            buf.push_str("false")
        },
        Value::Integer(n) => buf.push_str(integer_to_text(*n as i128).as_str()),
        Value::Float(t) => buf.push_str(t.as_str()),
        Value::String(s) => write_string(compact_as_str(s), d, buf),
        _ => {
            assert(buf@ + Seq::<char>::empty() =~= buf@);
        },
    }
}

/// Whether all items are primitives.
fn items_are_simple(a: &Vec<Value>) -> (r: bool)
    ensures
        r == all_simple(models(a@)),
{
    proof {
        lemma_models(a@);
    }
    let mut i: usize = 0;
    while i < a.len()
        invariant
            i <= a@.len() == models(a@).len(),
            forall|j: int| 0 <= j < a@.len() ==> models(a@)[j] == (#[trigger] a@[j])@,
            forall|j: int| 0 <= j < i ==> is_simple(#[trigger] models(a@)[j]),
        decreases a@.len() - i,
    {
        assert(a@[i as int]@ == models(a@)[i as int]);
        if !a[i].is_primitive() {
            return false;
        }
        i += 1;
    }
    true
}

/// Appends the values of an array of primitives.
fn write_values(a: &Vec<Value>, d: char, buf: &mut String)
    ensures
        final(buf)@ == old(buf)@ + joined(primitive_texts(models(a@), d), separator(d), 0),
{
    let ghost parts = primitive_texts(models(a@), d);
    let ghost sep = separator(d);
    proof {
        lemma_models(a@);
    }
    let mut i: usize = 0;
    while i < a.len()
        invariant
            i <= a@.len() == models(a@).len(),
            parts == primitive_texts(models(a@), d),
            sep == separator(d),
            forall|j: int| 0 <= j < a@.len() ==> models(a@)[j] == (#[trigger] a@[j])@,
            old(buf)@ + joined(parts, sep, 0) == buf@ + joined(parts, sep, i as int),
        decreases a@.len() - i,
    {
        let ghost before = buf@;
        if i > 0 {
            buf.push(d);
            buf.push(' ');
            assert(buf@ =~= before + sep);
        }
        assert(a@[i as int]@ == models(a@)[i as int]);
        write_primitive(&a[i], d, buf);
        proof {
            let head: Text = if i > 0 {
                sep
            } else {
                seq![]
            };
            assert(buf@ =~= before + head + parts[i as int]);
            assert(before + (head + parts[i as int] + joined(parts, sep, i + 1)) =~= buf@ + joined(
                parts,
                sep,
                i + 1,
            ));
        }
        i += 1;
    }
    assert(buf@ + joined(parts, sep, i as int) =~= buf@);
}

/// Appends the start of the header of an array whose key is written already.
fn write_length(n: usize, buf: &mut String)
    ensures
        final(buf)@ == old(buf)@ + (seq!['['] + integer_text(n as int) + seq![']']),
{
    buf.push('[');
    write_usize(n, buf);
    buf.push(']');
    assert(buf@ =~= old(buf)@ + (seq!['['] + integer_text(n as int) + seq![']']));
}

/// Appends an array of primitives whose key is written already.
fn write_inline_array(a: &Vec<Value>, d: char, buf: &mut String)
    ensures
        forall|before: Text, key: Text|
            #![trigger before + inline_array_text(key, models(a@), d)]
            old(buf)@ == before + key ==> final(buf)@ == before + inline_array_text(
                key,
                models(a@),
                d,
            ),
{
    proof {
        lemma_models(a@);
    }
    write_length(a.len(), buf);
    buf.push(':');
    buf.push(' ');
    write_values(a, d, buf);
    proof {
        let v = models(a@);
        let tail = joined(primitive_texts(v, d), separator(d), 0);
        let len = seq!['['] + integer_text(v.len() as int) + seq![']'];
        assert(buf@ =~= old(buf)@ + len + seq![':', ' '] + tail);
        assert forall|before: Text, key: Text|
            #![trigger before + inline_array_text(key, v, d)]
            old(buf)@ == before + key implies buf@ == before + inline_array_text(key, v, d) by {
            assert(buf@ =~= before + inline_array_text(key, v, d));
        }
    }
}

// ---------------------------------------------------------------------------
// Writing lines

/// What lines are written with.
struct Pen<'a> {
    delimiter: char,
    indent: usize,
    schemas: &'a SconMap,
}

impl<'a> Pen<'a> {
    /// What the encoder goes by.
    spec fn style(&self) -> Style {
        Style { delimiter: self.delimiter, schemas: self.schemas@ }
    }

    /// Whether `pad` is what stands before a line at depth `depth`.
    spec fn pads(&self, pad: Text, depth: int) -> bool {
        depth >= 0 && pad == spaces(self.indent as nat * depth)
    }

    /// What stands before a line one level deeper.
    fn deeper(&self, pad: &str, Ghost(depth): Ghost<int>) -> (r: String)
        requires
            self.pads(pad@, depth),
        ensures
            self.pads(r@, depth + 1),
    {
        let mut r: String = owned(pad);
        let mut i: usize = 0;
        assert(r@ =~= pad@ + spaces(0));
        while i < self.indent
            invariant
                i <= self.indent,
                r@ == pad@ + spaces(i as int),
            decreases self.indent - i,
        {
            r.push(' ');
            assert(spaces(i + 1) =~= spaces(i as int).push(' '));
            i += 1;
        }
        proof {
            lemma_deeper(self.indent as nat, depth);
        }
        r
    }

    /// The name of the first definition that a value equals.
    fn find_matching_schema(&self, v: &Value) -> (r: Option<&str>)
        ensures
            match r {
                Some(n) => matching_schema(self.schemas@, v@, 0) == Some(n@),
                None => matching_schema(self.schemas@, v@, 0) is None,
            },
    {
        let n: usize = self.schemas.len();
        let mut i: usize = 0;
        while i < n
            invariant
                i <= n == self.schemas@.len(),
                matching_schema(self.schemas@, v@, 0) == matching_schema(
                    self.schemas@,
                    v@,
                    i as int,
                ),
            decreases n - i,
        {
            if values_equal(v, self.schemas.value_at(i)) {
                return Some(self.schemas.key_at(i));
            }
            i += 1;
        }
        None
    }

    /// Appends the entries of an object.
    fn encode_object(&self, o: &SconMap, pad: &str, Ghost(depth): Ghost<int>, buf: &mut String)
        requires
            self.pads(pad@, depth),
        ensures
            final(buf)@ == old(buf)@ + layout(
                written_entries(self.style(), o@, depth, 0),
                self.indent as nat,
            ),
        decreases o@, 0int,
    {
        let ghost e = self.style();
        let ghost all = written_entries(e, o@, depth, 0);
        let ghost ind = self.indent as nat;
        let ghost mut done: Seq<Line> = seq![];
        let n: usize = o.len();
        let mut i: usize = 0;
        assert(done + all =~= all);
        assert(buf@ + layout(done, ind) =~= buf@);
        while i < n
            invariant
                i <= n == o@.len(),
                self.pads(pad@, depth),
                e == self.style(),
                ind == self.indent as nat,
                all == done + written_entries(e, o@, depth, i as int),
                buf@ == old(buf)@ + layout(done, ind),
                i > 0 <==> done.len() > 0,
            decreases n - i,
        {
            let ghost before = buf@;
            if i > 0 {
                buf.push('\n');
            }
            proof {
                lemma_entry_smaller(o@, i as int);
            }
            let k = o.key_at(i);
            let v = o.value_at(i);
            self.write_entry(k, v, pad, Ghost(depth), true, buf);
            proof {
                let x = written_entry(e, k@, v@, depth, true);
                lemma_some_lines(e, k@, v@, depth, true);
                lemma_layout_append(done, x, ind);
                assert(buf@ =~= old(buf)@ + layout(done + x, ind));
                assert(done + (x + written_entries(e, o@, depth, i + 1)) =~= done + x
                    + written_entries(e, o@, depth, i + 1));
                done = done + x;
            }
            i += 1;
        }
        assert(done + written_entries(e, o@, depth, n as int) =~= done);
    }

    /// Appends the entries of a list item behind its first.
    fn encode_rest(&self, o: &SconMap, pad: &str, Ghost(depth): Ghost<int>, Ghost(first): Ghost<
        Seq<Line>,
    >, Ghost(start): Ghost<Text>, buf: &mut String)
        requires
            self.pads(pad@, depth),
            o@.len() > 0,
            first.len() > 0,
            old(buf)@ == start + layout(first, self.indent as nat),
        ensures
            final(buf)@ == start + layout(
                first + written_rest(self.style(), o@, depth, 1),
                self.indent as nat,
            ),
        decreases o@, 0int,
    {
        let ghost e = self.style();
        let ghost ind = self.indent as nat;
        let ghost mut done: Seq<Line> = first;
        let ghost all = first + written_rest(e, o@, depth, 1);
        let n: usize = o.len();
        let mut i: usize = 1;
        while i < n
            invariant
                1 <= i <= n == o@.len(),
                self.pads(pad@, depth),
                e == self.style(),
                ind == self.indent as nat,
                done.len() > 0,
                all == done + written_rest(e, o@, depth, i as int),
                buf@ == start + layout(done, ind),
            decreases n - i,
        {
            buf.push('\n');
            proof {
                lemma_entry_smaller(o@, i as int);
            }
            let k = o.key_at(i);
            let v = o.value_at(i);
            self.write_entry(k, v, pad, Ghost(depth), false, buf);
            proof {
                let x = written_entry(e, k@, v@, depth, false);
                lemma_some_lines(e, k@, v@, depth, false);
                lemma_layout_append(done, x, ind);
                assert(buf@ =~= start + layout(done + x, ind));
                assert(done + (x + written_rest(e, o@, depth, i + 1)) =~= done + x + written_rest(
                    e,
                    o@,
                    depth,
                    i + 1,
                ));
                done = done + x;
            }
            i += 1;
        }
        assert(done + written_rest(e, o@, depth, n as int) =~= done);
    }

    /// Appends one entry.
    fn write_entry(
        &self,
        k: &str,
        v: &Value,
        pad: &str,
        Ghost(depth): Ghost<int>,
        refs: bool,
        buf: &mut String,
    )
        requires
            self.pads(pad@, depth),
        ensures
            final(buf)@ == old(buf)@ + layout(
                written_entry(self.style(), k@, v@, depth, refs),
                self.indent as nat,
            ),
        decreases v@, 0int,
    {
        let ghost ind = self.indent as nat;
        let ghost start = old(buf)@;
        match v {
            Value::Array(a) => {
                assert(decreases_to!(v@ => v@->Array_0));
                self.encode_array_value(Some(k), a, pad, Ghost(depth), buf);
            },
            Value::Object(o) => {
                assert(decreases_to!(v@ => v@->Object_0));
                buf.push_str(pad);
                write_key(k, buf);
                if o.is_empty() {
                    buf.push_str(": {}");
                    assert(buf@ =~= start + line_text(
                        Line { depth, text: key_text(k@) + ": {}"@ },
                        ind,
                    ));
                    return;
                }
                if refs {
                    if let Some(name) = self.find_matching_schema(v) {
                        buf.push_str(": @s:");
                        buf.push_str(name);
                        assert(buf@ =~= start + line_text(
                            Line { depth, text: key_text(k@) + ": @s:"@ + name@ },
                            ind,
                        ));
                        return;
                    }
                }
                buf.push_str(":");
                let ghost l = Line { depth, text: key_text(k@) + ":"@ };
                assert(buf@ =~= start + line_text(l, ind));
                buf.push('\n');
                let below = self.deeper(pad, Ghost(depth));
                self.encode_object(o, below.as_str(), Ghost(depth + 1), buf);
                proof {
                    let x = written_entries(self.style(), o@, depth + 1, 0);
                    lemma_entries_some(self.style(), o@, depth + 1);
                    lemma_layout_append(seq![l], x, ind);
                    assert(buf@ =~= start + layout(seq![l] + x, ind));
                }
            },
            _ => {
                buf.push_str(pad);
                write_key(k, buf);
                buf.push_str(": ");
                write_primitive(v, self.delimiter, buf);
                assert(buf@ =~= start + line_text(
                    Line { depth, text: key_text(k@) + ": "@ + primitive_text(v@, self.delimiter) },
                    ind,
                ));
            },
        }
    }

    /// Appends an array.
    fn encode_array_value(
        &self,
        key: Option<&str>,
        a: &Vec<Value>,
        pad: &str,
        Ghost(depth): Ghost<int>,
        buf: &mut String,
    )
        requires
            self.pads(pad@, depth),
        ensures
            final(buf)@ == old(buf)@ + layout(
                written_array(
                    self.style(),
                    match key {
                        Some(k) => key_text(k@),
                        None => seq![],
                    },
                    key is Some,
                    models(a@),
                    depth,
                    depth + 1,
                ),
                self.indent as nat,
            ),
        decreases models(a@), 2int,
    {
        let ghost start = old(buf)@;
        let ghost kt: Text = match key {
            Some(k) => key_text(k@),
            None => seq![],
        };
        buf.push_str(pad);
        if let Some(k) = key {
            write_key(k, buf);
        }
        assert(buf@ =~= start + line_text(Line { depth, text: kt }, self.indent as nat));
        let below = self.deeper(pad, Ghost(depth));
        self.write_array(
            key.is_some(),
            a,
            below.as_str(),
            Ghost(depth),
            Ghost(depth + 1),
            Ghost(start),
            Ghost(kt),
            buf,
        );
    }

    /// Appends an array behind `kt`, which is written already.
    fn write_array(
        &self,
        keyed: bool,
        a: &Vec<Value>,
        below: &str,
        Ghost(depth): Ghost<int>,
        Ghost(deep): Ghost<int>,
        Ghost(start): Ghost<Text>,
        Ghost(kt): Ghost<Text>,
        buf: &mut String,
    )
        requires
            self.pads(below@, deep),
            old(buf)@ == start + line_text(Line { depth, text: kt }, self.indent as nat),
        ensures
            final(buf)@ == start + layout(
                written_array(self.style(), kt, keyed, models(a@), depth, deep),
                self.indent as nat,
            ),
        decreases models(a@), 1int,
    {
        let ghost ind = self.indent as nat;
        let ghost pad = spaces(ind * depth);
        let ghost v = models(a@);
        let n: usize = a.len();
        proof {
            lemma_models(a@);
        }
        assert(buf@ =~= start + pad + kt);
        if n == 0 {
            if keyed {
                buf.push_str(": []");
                assert(buf@ =~= start + line_text(Line { depth, text: kt + ": []"@ }, ind));
            } else {
                buf.push_str("[]");
                assert(buf@ =~= start + line_text(Line { depth, text: kt + "[]"@ }, ind));
            }
            return;
        }
        if items_are_simple(a) {
            write_inline_array(a, self.delimiter, buf);
            proof {
                let t = inline_array_text(kt, v, self.delimiter);
                assert(buf@ == (start + pad) + t);
                assert(buf@ =~= start + line_text(Line { depth, text: t }, ind));
            }
            return;
        }
        write_length(n, buf);
        assert(buf@ =~= start + pad + header_text(kt, v.len()));
        if let Some(fields) = extract_tabular_fields(a) {
            self.write_table(
                a,
                &fields,
                below,
                Ghost(depth),
                Ghost(deep),
                Ghost(start),
                Ghost(kt),
                buf,
            );
            return;
        }
        buf.push_str(":");
        let ghost e = self.style();
        let ghost mut done: Seq<Line> = seq![Line { depth, text: header_text(kt, v.len()) + ":"@ }];
        let ghost all = done + written_items(e, v, deep, 0);
        assert(buf@ =~= start + layout(done, ind));
        let mut i: usize = 0;
        while i < n
            invariant
                i <= n == a@.len() == v.len(),
                v == models(a@),
                forall|j: int| 0 <= j < n ==> v[j] == (#[trigger] a@[j])@,
                self.pads(below@, deep),
                e == self.style(),
                ind == self.indent as nat,
                done.len() > 0,
                all == done + written_items(e, v, deep, i as int),
                buf@ == start + layout(done, ind),
            decreases n - i,
        {
            buf.push('\n');
            proof {
                lemma_item_smaller(v, i as int);
                assert(a@[i as int]@ == v[i as int]);
            }
            self.write_item(&a[i], below, Ghost(deep), buf);
            proof {
                let x = written_item(e, v[i as int], deep);
                lemma_some_lines(e, seq![], v[i as int], deep, true);
                lemma_layout_append(done, x, ind);
                assert(buf@ =~= start + layout(done + x, ind));
                assert(done + (x + written_items(e, v, deep, i + 1)) =~= done + x
                    + written_items(e, v, deep, i + 1));
                done = done + x;
            }
            i += 1;
        }
        assert(done + written_items(e, v, deep, n as int) =~= done);
    }

    /// Appends a table whose key and length are written already.
    fn write_table(
        &self,
        a: &Vec<Value>,
        fields: &Vec<&str>,
        below: &str,
        Ghost(depth): Ghost<int>,
        Ghost(deep): Ghost<int>,
        Ghost(start): Ghost<Text>,
        Ghost(kt): Ghost<Text>,
        buf: &mut String,
    )
        requires
            self.pads(below@, deep),
            old(buf)@ == start + spaces(self.indent * depth) + header_text(kt, models(a@).len()),
        ensures
            final(buf)@ == start + layout(
                seq![
                    Line {
                        depth,
                        text: header_text(kt, models(a@).len()) + seq!['{'] + joined(
                            field_texts(texts(fields@)),
                            seq![self.delimiter],
                            0,
                        ) + "}:"@,
                    },
                ] + row_lines(models(a@), texts(fields@), self.delimiter, deep, 0),
                self.indent as nat,
            ),
    {
        let ghost ind = self.indent as nat;
        let ghost v = models(a@);
        let ghost f = texts(fields@);
        let d: char = self.delimiter;
        buf.push('{');
        write_fields(fields, d, buf);
        buf.push_str("}:");
        let ghost l = Line {
            depth,
            text: header_text(kt, v.len()) + seq!['{'] + joined(field_texts(f), seq![d], 0) + "}:"@,
        };
        let ghost mut done: Seq<Line> = seq![l];
        let ghost all = done + row_lines(v, f, d, deep, 0);
        assert(buf@ =~= start + layout(done, ind));
        proof {
            lemma_models(a@);
        }
        let mut i: usize = 0;
        while i < a.len()
            invariant
                i <= a@.len() == v.len(),
                v == models(a@),
                f == texts(fields@),
                d == self.delimiter,
                forall|j: int| 0 <= j < v.len() ==> v[j] == (#[trigger] a@[j])@,
                self.pads(below@, deep),
                ind == self.indent as nat,
                done.len() > 0,
                all == done + row_lines(v, f, d, deep, i as int),
                buf@ == start + layout(done, ind),
            decreases a@.len() - i,
        {
            assert(a@[i as int]@ == v[i as int]);
            if let Value::Object(o) = &a[i] {
                buf.push('\n');
                buf.push_str(below);
                write_row(o, fields, d, buf);
                proof {
                    let x = seq![
                        Line {
                            depth: deep,
                            text: joined(row_texts(o@, f, d), separator(d), 0),
                        },
                    ];
                    lemma_layout_append(done, x, ind);
                    assert(buf@ =~= start + layout(done + x, ind));
                    assert(done + (x + row_lines(v, f, d, deep, i + 1)) =~= done + x
                        + row_lines(v, f, d, deep, i + 1));
                    done = done + x;
                }
            } else {
                assert(Seq::<Line>::empty() + row_lines(v, f, d, deep, i + 1) =~= row_lines(
                    v,
                    f,
                    d,
                    deep,
                    i + 1,
                ));
            }
            i += 1;
        }
        assert(done + row_lines(v, f, d, deep, i as int) =~= done);
    }

    /// Appends an item of an array.
    fn write_item(&self, item: &Value, pad: &str, Ghost(depth): Ghost<int>, buf: &mut String)
        requires
            self.pads(pad@, depth),
        ensures
            final(buf)@ == old(buf)@ + layout(
                written_item(self.style(), item@, depth),
                self.indent as nat,
            ),
        decreases item@, 0int,
    {
        let ghost ind = self.indent as nat;
        let ghost start = old(buf)@;
        match item {
            Value::Object(o) => {
                if o.is_empty() {
                    buf.push_str(pad);
                    buf.push_str("- {}");
                    assert(buf@ =~= start + line_text(Line { depth, text: "- {}"@ }, ind));
                    return;
                }
                if let Some(name) = self.find_matching_schema(item) {
                    buf.push_str(pad);
                    buf.push_str("- @s:");
                    buf.push_str(name);
                    assert(buf@ =~= start + line_text(Line { depth, text: "- @s:"@ + name@ }, ind));
                    return;
                }
                assert(decreases_to!(item@ => item@->Object_0));
                self.encode_object_as_list_item(o, pad, Ghost(depth), buf);
            },
            Value::Array(a) => {
                proof {
                    lemma_models(a@);
                }
                if a.len() == 0 {
                    buf.push_str(pad);
                    buf.push_str("- []");
                    assert(buf@ =~= start + line_text(Line { depth, text: "- []"@ }, ind));
                } else {
                    buf.push_str(pad);
                    buf.push_str("- ");
                    assert(buf@ =~= start + line_text(Line { depth, text: "- "@ }, ind));
                    let below = self.deeper(pad, Ghost(depth));
                    let further = self.deeper(below.as_str(), Ghost(depth + 1));
                    assert(decreases_to!(item@ => item@->Array_0));
                    self.write_array(
                        true,
                        a,
                        further.as_str(),
                        Ghost(depth),
                        Ghost(depth + 2),
                        Ghost(start),
                        Ghost("- "@),
                        buf,
                    );
                }
            },
            _ => {
                buf.push_str(pad);
                buf.push_str("- ");
                write_primitive(item, self.delimiter, buf);
                assert(buf@ =~= start + line_text(
                    Line { depth, text: "- "@ + primitive_text(item@, self.delimiter) },
                    ind,
                ));
            },
        }
    }

    /// Appends an object that is a list item.
    fn encode_object_as_list_item(
        &self,
        o: &SconMap,
        pad: &str,
        Ghost(depth): Ghost<int>,
        buf: &mut String,
    )
        requires
            self.pads(pad@, depth),
        ensures
            final(buf)@ == old(buf)@ + layout(
                written_object_item(self.style(), o@, depth),
                self.indent as nat,
            ),
        decreases o@, 1int,
    {
        let ghost start = old(buf)@;
        if o.is_empty() {
            buf.push_str(pad);
            buf.push_str("- ");
            assert(buf@ =~= start + line_text(
                Line { depth, text: "- "@ },
                self.indent as nat,
            ));
            return;
        }
        proof {
            lemma_entry_smaller(o@, 0);
        }
        let k = o.key_at(0);
        let v = o.value_at(0);
        self.write_first(k, v, pad, Ghost(depth), buf);
        let ghost first = written_first(self.style(), k@, v@, depth);
        proof {
            lemma_some_lines(self.style(), k@, v@, depth, false);
        }
        let below = self.deeper(pad, Ghost(depth));
        self.encode_rest(o, below.as_str(), Ghost(depth + 1), Ghost(first), Ghost(start), buf);
    }

    /// Appends the first entry of an object that is a list item.
    fn write_first(
        &self,
        k: &str,
        v: &Value,
        pad: &str,
        Ghost(depth): Ghost<int>,
        buf: &mut String,
    )
        requires
            self.pads(pad@, depth),
        ensures
            final(buf)@ == old(buf)@ + layout(
                written_first(self.style(), k@, v@, depth),
                self.indent as nat,
            ),
        decreases v@, 0int,
    {
        let ghost ind = self.indent as nat;
        let ghost start = old(buf)@;
        let ghost head = "- "@ + key_text(k@);
        buf.push_str(pad);
        buf.push_str("- ");
        write_key(k, buf);
        assert(buf@ =~= start + pad@ + head);
        match v {
            Value::Array(a) => {
                proof {
                    lemma_models(a@);
                }
                assert(buf@ =~= start + line_text(Line { depth, text: head }, ind));
                let below = self.deeper(pad, Ghost(depth));
                let further = self.deeper(below.as_str(), Ghost(depth + 1));
                assert(decreases_to!(v@ => v@->Array_0));
                self.write_array(
                    true,
                    a,
                    further.as_str(),
                    Ghost(depth),
                    Ghost(depth + 2),
                    Ghost(start),
                    Ghost(head),
                    buf,
                );
            },
            Value::Object(o) => {
                assert(decreases_to!(v@ => v@->Object_0));
                if o.is_empty() {
                    buf.push_str(": {}");
                    assert(buf@ =~= start + line_text(Line { depth, text: head + ": {}"@ }, ind));
                    return;
                }
                buf.push_str(":");
                let ghost l = Line { depth, text: head + ":"@ };
                assert(buf@ =~= start + line_text(l, ind));
                buf.push('\n');
                let below = self.deeper(pad, Ghost(depth));
                let further = self.deeper(below.as_str(), Ghost(depth + 1));
                self.encode_object(o, further.as_str(), Ghost(depth + 2), buf);
                proof {
                    let x = written_entries(self.style(), o@, depth + 2, 0);
                    lemma_entries_some(self.style(), o@, depth + 2);
                    lemma_layout_append(seq![l], x, ind);
                    assert(buf@ =~= start + layout(seq![l] + x, ind));
                }
            },
            _ => {
                buf.push_str(": ");
                write_primitive(v, self.delimiter, buf);
                assert(buf@ =~= start + line_text(
                    Line { depth, text: head + ": "@ + primitive_text(v@, self.delimiter) },
                    ind,
                ));
            },
        }
    }
}

/// The entries of an object that has some take at least one line.
proof fn lemma_entries_some(e: Style, o: Entries, depth: int)
    requires
        o.len() > 0,
    ensures
        written_entries(e, o, depth, 0).len() >= 1,
{
    lemma_some_lines(e, o[0].0, o[0].1, depth, true);
}

/// Appends the fields of a table.
fn write_fields(fields: &Vec<&str>, d: char, buf: &mut String)
    ensures
        final(buf)@ == old(buf)@ + joined(field_texts(texts(fields@)), seq![d], 0),
{
    let ghost parts = field_texts(texts(fields@));
    let ghost sep = seq![d];
    let mut i: usize = 0;
    while i < fields.len()
        invariant
            i <= fields@.len(),
            parts == field_texts(texts(fields@)),
            sep == seq![d],
            old(buf)@ + joined(parts, sep, 0) == buf@ + joined(parts, sep, i as int),
        decreases fields@.len() - i,
    {
        let ghost before = buf@;
        if i > 0 {
            buf.push(d);
        }
        write_key(fields[i], buf);
        proof {
            let head: Text = if i > 0 {
                sep
            } else {
                seq![]
            };
            assert(buf@ =~= before + head + parts[i as int]);
            assert(before + (head + parts[i as int] + joined(parts, sep, i + 1)) =~= buf@ + joined(
                parts,
                sep,
                i + 1,
            ));
        }
        i += 1;
    }
    assert(buf@ + joined(parts, sep, i as int) =~= buf@);
}

/// Appends a row of a table.
fn write_row(o: &SconMap, fields: &Vec<&str>, d: char, buf: &mut String)
    ensures
        final(buf)@ == old(buf)@ + joined(row_texts(o@, texts(fields@), d), separator(d), 0),
{
    let ghost parts = row_texts(o@, texts(fields@), d);
    let ghost sep = separator(d);
    let mut i: usize = 0;
    while i < fields.len()
        invariant
            i <= fields@.len(),
            parts == row_texts(o@, texts(fields@), d),
            sep == separator(d),
            old(buf)@ + joined(parts, sep, 0) == buf@ + joined(parts, sep, i as int),
        decreases fields@.len() - i,
    {
        let ghost before = buf@;
        if i > 0 {
            buf.push(d);
            buf.push(' ');
            assert(buf@ =~= before + sep);
        }
        match o.get(fields[i]) {
            Some(v) => write_primitive(v, d, buf),
            None => buf.push_str("null"),
        }
        proof {
            let head: Text = if i > 0 {
                sep
            } else {
                seq![]
            };
            assert(buf@ =~= before + head + parts[i as int]);
            assert(before + (head + parts[i as int] + joined(parts, sep, i + 1)) =~= buf@ + joined(
                parts,
                sep,
                i + 1,
            ));
        }
        i += 1;
    }
    assert(buf@ + joined(parts, sep, i as int) =~= buf@);
}

/// Whether a value is a row of a table with the given fields.
fn value_is_row(v: &Value, fields: &Vec<&str>) -> (r: bool)
    ensures
        r == is_row(v@, texts(fields@)),
{
    let ghost f = texts(fields@);
    match v {
        Value::Object(o) => {
            if o.len() != fields.len() {
                return false;
            }
            let mut k: usize = 0;
            while k < fields.len()
                invariant
                    k <= fields@.len(),
                    f == texts(fields@),
                    v@ == Val::Object(o@),
                    forall|j: int|
                        0 <= j < k ==> match entry(o@, #[trigger] f[j]) {
                            Some(x) => is_simple(x),
                            None => false,
                        },
                decreases fields@.len() - k,
            {
                let good = match o.get(fields[k]) {
                    Some(x) => x.is_primitive(),
                    None => false,
                };
                if !good {
                    assert(f[k as int] == fields@[k as int]@);
                    return false;
                }
                k += 1;
            }
            true
        },
        _ => false,
    }
}

/// The fields of an array that can be written as a table.
fn extract_tabular_fields<'a>(a: &'a Vec<Value>) -> (r: Option<Vec<&'a str>>)
    ensures
        match r {
            Some(f) => table_fields(models(a@)) == Some(texts(f@)),
            None => table_fields(models(a@)) is None,
        },
{
    let ghost v = models(a@);
    proof {
        lemma_models(a@);
    }
    if a.len() == 0 {
        return None;
    }
    assert(a@[0]@ == v[0]);
    match &a[0] {
        Value::Object(o) => {
            let n: usize = o.len();
            if n == 0 {
                return None;
            }
            let mut fields: Vec<&'a str> = Vec::new();
            let mut k: usize = 0;
            while k < n
                invariant
                    k <= n == o@.len(),
                    texts(fields@) == keys(o@).subrange(0, k as int),
                    forall|j: int| 0 <= j < k ==> is_simple((#[trigger] o@[j]).1),
                    v.len() > 0 && v[0] == Val::Object(o@),
                    v == models(a@),
                decreases n - k,
            {
                if !o.value_at(k).is_primitive() {
                    return None;
                }
                let ghost before = fields@;
                let key = o.key_at(k);
                fields.push(key);
                assert(texts(fields@) =~= texts(before).push(key@));
                assert(keys(o@).subrange(0, k + 1) =~= keys(o@).subrange(0, k as int).push(key@));
                k += 1;
            }
            assert(keys(o@).subrange(0, n as int) =~= keys(o@));
            let mut i: usize = 1;
            while i < a.len()
                invariant
                    1 <= i <= a@.len() == v.len(),
                    v == models(a@),
                    v[0] == Val::Object(o@),
                    texts(fields@) == keys(o@),
                    forall|j: int| 0 <= j < v.len() ==> v[j] == (#[trigger] a@[j])@,
                    forall|j: int| 1 <= j < i ==> is_row(#[trigger] v[j], keys(o@)),
                decreases a@.len() - i,
            {
                assert(a@[i as int]@ == v[i as int]);
                if !value_is_row(&a[i], &fields) {
                    return None;
                }
                i += 1;
            }
            Some(fields)
        },
        _ => None,
    }
}

// ---------------------------------------------------------------------------
// Writing definitions

/// Appends a value on one line.
fn encode_inline(v: &Value, d: char, buf: &mut String)
    ensures
        final(buf)@ == old(buf)@ + inline_text(v@, d),
    decreases v@,
{
    match v {
        Value::Array(a) => {
            assert(decreases_to!(v@ => v@->Array_0));
            let ghost m = models(a@);
            proof {
                lemma_models(a@);
            }
            buf.push('[');
            let ghost head = buf@;
            let mut i: usize = 0;
            while i < a.len()
                invariant
                    i <= a@.len() == m.len(),
                    m == models(a@),
                    forall|j: int| 0 <= j < a@.len() ==> m[j] == (#[trigger] a@[j])@,
                    decreases_to!(v@ => m),
                    head + inline_items(m, d, 0) == buf@ + inline_items(m, d, i as int),
                decreases a@.len() - i,
            {
                let ghost before = buf@;
                if i > 0 {
                    buf.push_str(", ");
                }
                proof {
                    lemma_item_smaller(m, i as int);
                    assert(a@[i as int]@ == m[i as int]);
                }
                encode_inline(&a[i], d, buf);
                proof {
                    let sep: Text = if i > 0 {
                        ", "@
                    } else {
                        seq![]
                    };
                    assert(buf@ =~= before + sep + inline_text(m[i as int], d));
                    assert(before + (sep + inline_text(m[i as int], d) + inline_items(m, d, i + 1))
                        =~= buf@ + inline_items(m, d, i + 1));
                }
                i += 1;
            }
            assert(buf@ + inline_items(m, d, i as int) =~= buf@);
            buf.push(']');
            assert(buf@ =~= old(buf)@ + inline_text(v@, d));
        },
        Value::Object(o) => {
            assert(decreases_to!(v@ => v@->Object_0));
            buf.push('{');
            let ghost head = buf@;
            let n: usize = o.len();
            let mut i: usize = 0;
            while i < n
                invariant
                    i <= n == o@.len(),
                    decreases_to!(v@ => o@),
                    head + inline_fields(o@, d, 0) == buf@ + inline_fields(o@, d, i as int),
                decreases n - i,
            {
                let ghost before = buf@;
                if i > 0 {
                    buf.push_str(", ");
                }
                write_key(o.key_at(i), buf);
                buf.push(':');
                proof {
                    lemma_entry_smaller(o@, i as int);
                }
                encode_inline(o.value_at(i), d, buf);
                proof {
                    let sep: Text = if i > 0 {
                        ", "@
                    } else {
                        seq![]
                    };
                    let k = key_text(o@[i as int].0);
                    let x = inline_text(o@[i as int].1, d);
                    assert(buf@ =~= before + sep + k + seq![':'] + x);
                    assert(before + (sep + k + seq![':'] + x + inline_fields(o@, d, i + 1)) =~= buf@
                        + inline_fields(o@, d, i + 1));
                }
                i += 1;
            }
            assert(buf@ + inline_fields(o@, d, n as int) =~= buf@);
            buf.push('}');
            assert(buf@ =~= old(buf)@ + inline_text(v@, d));
        },
        _ => {
            write_primitive(v, d, buf);
        },
    }
}

/// Appends the definitions of one kind behind lines that stand there already,
/// of which `start` is not a part.
fn write_definitions(
    prefix: &str,
    o: &SconMap,
    d: char,
    emitted: bool,
    Ghost(start): Ghost<Text>,
    Ghost(done): Ghost<Seq<Line>>,
    Ghost(indent): Ghost<nat>,
    buf: &mut String,
)
    requires
        old(buf)@ == start + layout(done, indent),
        emitted == (done.len() > 0),
    ensures
        final(buf)@ == start + layout(next_group(done, definition_lines(prefix@, o@, d)), indent),
{
    let n: usize = o.len();
    let ghost all = definition_lines(prefix@, o@, d);
    if n == 0 {
        assert(next_group(done, all) =~= done);
        return;
    }
    let ghost gap: Seq<Line> = if done.len() > 0 {
        seq![Line { depth: 0, text: seq![] }]
    } else {
        seq![]
    };
    let ghost first = done + gap;
    proof {
        lemma_no_spaces(indent);
    }
    if emitted {
        buf.push('\n');
        proof {
            lemma_layout_append(done, gap, indent);
            assert(buf@ =~= start + layout(first, indent));
        }
    } else {
        assert(first =~= done);
    }
    let mut i: usize = 0;
    assert(first + all.subrange(0, 0) =~= first);
    while i < n
        invariant
            i <= n == o@.len(),
            all == definition_lines(prefix@, o@, d),
            spaces(indent * 0int) == Seq::<char>::empty(),
            buf@ == start + layout(first + all.subrange(0, i as int), indent),
            emitted == (first.len() > 0),
        decreases n - i,
    {
        if i > 0 || emitted {
            buf.push('\n');
        }
        let ghost before = buf@;
        buf.push_str(prefix);
        buf.push_str(o.key_at(i));
        buf.push(' ');
        encode_inline(o.value_at(i), d, buf);
        proof {
            let l = all[i as int];
            assert(buf@ =~= before + l.text);
            let x = seq![l];
            assert(layout(x, indent) =~= l.text);
            lemma_layout_append(first + all.subrange(0, i as int), x, indent);
            assert(first + all.subrange(0, i as int) + x =~= first + all.subrange(0, i + 1));
            assert(buf@ =~= start + layout(first + all.subrange(0, i + 1), indent));
        }
        i += 1;
    }
    assert(first + all.subrange(0, n as int) =~= next_group(done, all));
}

// ---------------------------------------------------------------------------
// Names for repeated parts

/// `s` without the characters `c` at either end.
pub open spec fn trim_char(s: Text, c: char) -> Text
    decreases s.len(),
{
    if s.len() > 0 && s[0] == c {
        trim_char(s.subrange(1, s.len() as int), c)
    } else if s.len() > 0 && s.last() == c {
        trim_char(s.drop_last(), c)
    } else {
        s
    }
}

/// Whether a part of a path is the position of an item of a list.
pub open spec fn is_position(p: Text) -> bool {
    p.len() >= 2 && p[0] == '[' && p.last() == ']' && length_of(p.subrange(1, p.len() - 1)) is Some
}

/// The last part of a path that is no position.
pub open spec fn last_name(parts: Seq<Text>) -> Text
    decreases parts.len(),
{
    if parts.len() == 0 {
        seq![]
    } else if is_position(parts.last()) {
        last_name(parts.drop_last())
    } else {
        parts.last()
    }
}

/// Texts one behind the other, from the `i`-th on.
pub open spec fn concatenated(parts: Seq<Text>, i: int) -> Text
    decreases parts.len() - i,
{
    if 0 <= i < parts.len() {
        parts[i] + concatenated(parts, i + 1)
    } else {
        seq![]
    }
}

/// `s` without the occurrences of `p`.
pub open spec fn without_text(s: Text, p: Text) -> Text {
    concatenated(split_text(s, p), 0)
}

/// The name under which the part of a value at `path` is defined: the last key
/// of the path without words that say little, or else a name made of its hash.
pub open spec fn schema_name(path: Text) -> Text {
    let last = last_name(split(trim_char(path, '.'), '.'));
    let cleaned = trim_char(
        without_text(
            without_text(
                without_text(without_text(last, "properties"@), "content"@),
                "application/json"@,
            ),
            "schema"@,
        ),
        '.',
    );
    if cleaned.len() == 0 {
        "auto_"@ + hex_text(xxh3_hash(encode_utf8(path)) as nat, 6)
    } else {
        cleaned
    }
}

/// What begins with `c` is trimmed like what follows.
proof fn lemma_trim_front(s: Text, c: char, a: int, b: int)
    requires
        0 <= a < b <= s.len(),
        s[a] == c,
    ensures
        trim_char(s.subrange(a, b), c) == trim_char(s.subrange(a + 1, b), c),
{
    assert(s.subrange(a, b).subrange(1, b - a) =~= s.subrange(a + 1, b));
}

/// What ends with `c`, and does not begin with it, is trimmed like what stands
/// before.
proof fn lemma_trim_back(s: Text, c: char, a: int, b: int)
    requires
        0 <= a < b <= s.len(),
        s[a] != c,
        s[b - 1] == c,
    ensures
        trim_char(s.subrange(a, b), c) == trim_char(s.subrange(a, b - 1), c),
{
    assert(s.subrange(a, b).drop_last() =~= s.subrange(a, b - 1));
}

/// What neither begins nor ends with `c` is left as it is.
proof fn lemma_trim_none(s: Text, c: char, a: int, b: int)
    requires
        0 <= a <= b <= s.len(),
        a < b ==> s[a] != c && s[b - 1] != c,
    ensures
        trim_char(s.subrange(a, b), c) == s.subrange(a, b),
{
}

/// `s` without the characters `c` at either end.
fn trimmed_of<'a>(s: &'a str, c: char) -> (r: &'a str)
    ensures
        r@ == trim_char(s@, c),
{
    let cs = chars_of(s);
    let n: usize = cs.len();
    let ghost all = trim_char(s@, c);
    let mut a: usize = 0;
    let mut b: usize = n;
    assert(s@.subrange(0, n as int) =~= s@);
    while a < b && cs[a] == c
        invariant
            a <= b == n == cs@.len(),
            cs@ == s@,
            all == trim_char(s@.subrange(a as int, b as int), c),
        decreases n - a,
    {
        proof {
            lemma_trim_front(s@, c, a as int, b as int);
        }
        a += 1;
    }
    while b > a && cs[b - 1] == c
        invariant
            a <= b <= n == cs@.len(),
            cs@ == s@,
            a < b ==> cs@[a as int] != c,
            all == trim_char(s@.subrange(a as int, b as int), c),
        decreases b,
    {
        proof {
            lemma_trim_back(s@, c, a as int, b as int);
        }
        b -= 1;
    }
    proof {
        lemma_trim_none(s@, c, a as int, b as int);
    }
    part(s, a, b)
}

/// Whether a part of a path is the position of an item of a list.
fn part_is_position(p: &str) -> (r: bool)
    ensures
        r == is_position(p@),
{
    let cs = chars_of(p);
    let n: usize = cs.len();
    n >= 2 && cs[0] == '[' && cs[n - 1] == ']' && parse_length(part(p, 1, n - 1)).is_some()
}

/// A text without the occurrences of another.
fn remove_text(s: &str, p: &str) -> (r: String)
    requires
        p@.len() > 0,
    ensures
        r@ == without_text(s@, p@),
{
    let parts = text_pieces(s, p);
    let ghost all = texts(parts@);
    let mut r: String = String::new();
    let mut i: usize = 0;
    assert(r@ + concatenated(all, 0) =~= concatenated(all, 0));
    while i < parts.len()
        invariant
            i <= parts@.len(),
            all == texts(parts@),
            concatenated(all, 0) == r@ + concatenated(all, i as int),
        decreases parts@.len() - i,
    {
        let ghost before = r@;
        r.push_str(parts[i]);
        assert(before + (all[i as int] + concatenated(all, i + 1)) =~= r@ + concatenated(all, i + 1));
        i += 1;
    }
    assert(r@ + concatenated(all, i as int) =~= r@);
    r
}

/// The name under which the part of a value at `path` is defined.
fn generate_schema_name(path: &str) -> (r: String)
    ensures
        r@ == schema_name(path@),
{
    let parts = pieces(trimmed_of(path, '.'), '.');
    let ghost all = texts(parts@);
    let mut n: usize = parts.len();
    assert(all.subrange(0, n as int) =~= all);
    while n > 0 && part_is_position(parts[n - 1])
        invariant
            n <= parts@.len(),
            all == texts(parts@),
            last_name(all) == last_name(all.subrange(0, n as int)),
        decreases n,
    {
        assert(all.subrange(0, n as int).drop_last() =~= all.subrange(0, n - 1));
        n -= 1;
    }
    let last: &str = if n > 0 {
        parts[n - 1]
    } else {
        ""
    };
    proof {
        reveal_strlit("");
        reveal_strlit("properties");
        reveal_strlit("content");
        reveal_strlit("application/json");
        reveal_strlit("schema");
        if n == 0 {
            assert(last@ =~= seq![]);
        }
    }
    let one = remove_text(last, "properties");
    let two = remove_text(one.as_str(), "content");
    let three = remove_text(two.as_str(), "application/json");
    let four = remove_text(three.as_str(), "schema");
    let cleaned = trimmed_of(four.as_str(), '.');
    if cleaned.is_empty() {
        let mut r: String = owned("auto_");
        let hash: u128 = xxhash_rust::xxh3::xxh3_128(path.as_bytes());
        r.push_str(to_hex(hash, 6).as_str());
        r
    } else {
        owned(cleaned)
    }
}

// ---------------------------------------------------------------------------
// Definitions that nothing refers to

/// How the lines of the definitions from `i` on begin that no reference in
/// `text` names.
pub open spec fn orphans(s: Entries, text: Text, i: int) -> Seq<Text>
    decreases s.len() - i,
{
    if 0 <= i < s.len() {
        (if holds_text(text, "@s:"@ + s[i].0) {
            seq![]
        } else {
            seq!["s:"@ + s[i].0 + " "@]
        }) + orphans(s, text, i + 1)
    } else {
        seq![]
    }
}

/// Whether `l` begins with one of `starts`.
pub open spec fn begins_with_one(l: Text, starts: Seq<Text>) -> bool {
    exists|i: int| 0 <= i < starts.len() && starts_with(l, #[trigger] starts[i])
}

/// The lines from `i` on that begin with none of `starts`.
pub open spec fn lines_without(ls: Seq<Text>, starts: Seq<Text>, i: int) -> Seq<Text>
    decreases ls.len() - i,
{
    if 0 <= i < ls.len() {
        (if begins_with_one(ls[i], starts) {
            seq![]
        } else {
            seq![ls[i]]
        }) + lines_without(ls, starts, i + 1)
    } else {
        seq![]
    }
}

/// `s` without the newlines that it begins with.
pub open spec fn without_leading_newlines(s: Text) -> Text
    decreases s.len(),
{
    if s.len() > 0 && s[0] == '\n' {
        without_leading_newlines(s.subrange(1, s.len() as int))
    } else {
        s
    }
}

/// `text` without the lines of definitions that no reference in it names.
pub open spec fn pruned(s: Entries, text: Text) -> Text {
    let starts = orphans(s, text, 0);
    if starts.len() == 0 {
        text
    } else {
        without_leading_newlines(joined(lines_without(lines(text), starts, 0), seq!['\n'], 0))
    }
}

/// How the lines of the definitions begin that no reference names.
fn find_orphans(s: &SconMap, text: &str) -> (r: Vec<String>)
    ensures
        string_texts(r@) == orphans(s@, text@, 0),
{
    let mut r: Vec<String> = Vec::new();
    let n: usize = s.len();
    let mut i: usize = 0;
    assert(string_texts(r@) + orphans(s@, text@, 0) =~= orphans(s@, text@, 0));
    while i < n
        invariant
            i <= n == s@.len(),
            orphans(s@, text@, 0) == string_texts(r@) + orphans(s@, text@, i as int),
        decreases n - i,
    {
        let name = s.key_at(i);
        let mut marker: String = owned("@s:");
        marker.push_str(name);
        let ghost before = string_texts(r@);
        if !holds(text, marker.as_str()) {
            let mut start: String = owned("s:");
            start.push_str(name);
            start.push_str(" ");
            let ghost x = start@;
            r.push(start);
            assert(string_texts(r@) =~= before + seq![x]);
            assert(before + (seq![x] + orphans(s@, text@, i + 1)) =~= string_texts(r@) + orphans(
                s@,
                text@,
                i + 1,
            ));
        } else {
            assert(before + (Seq::<Text>::empty() + orphans(s@, text@, i + 1)) =~= before + orphans(
                s@,
                text@,
                i + 1,
            ));
        }
        i += 1;
    }
    assert(string_texts(r@) + orphans(s@, text@, i as int) =~= string_texts(r@));
    r
}

/// Whether a line begins with one of some texts.
fn begins_with_any(l: &str, starts: &Vec<String>) -> (r: bool)
    ensures
        r == begins_with_one(l@, string_texts(starts@)),
{
    let mut i: usize = 0;
    while i < starts.len()
        invariant
            i <= starts@.len(),
            forall|j: int|
                0 <= j < i ==> !starts_with(l@, #[trigger] string_texts(starts@)[j]),
        decreases starts@.len() - i,
    {
        if begins(l, starts[i].as_str()) {
            assert(starts_with(l@, string_texts(starts@)[i as int]));
            return true;
        }
        i += 1;
    }
    false
}

/// Takes the lines of definitions out that no reference names.
fn prune_orphan_schemas(s: &SconMap, buf: &mut String)
    ensures
        final(buf)@ == pruned(s@, old(buf)@),
{
    let starts = find_orphans(s, buf.as_str());
    if starts.len() == 0 {
        return;
    }
    let ghost st = string_texts(starts@);
    let text: String = buf.clone();
    let ls = line_list(text.as_str());
    let ghost all = texts(ls@);
    let ghost nl = seq!['\n'];
    let mut kept: Vec<&str> = Vec::new();
    let mut i: usize = 0;
    assert(texts(kept@) + lines_without(all, st, 0) =~= lines_without(all, st, 0));
    while i < ls.len()
        invariant
            i <= ls@.len(),
            all == texts(ls@),
            st == string_texts(starts@),
            lines_without(all, st, 0) == texts(kept@) + lines_without(all, st, i as int),
        decreases ls@.len() - i,
    {
        let ghost before = texts(kept@);
        let line: &str = ls[i];
        if !begins_with_any(line, &starts) {
            kept.push(line);
            assert(texts(kept@) =~= before + seq![line@]);
            assert(before + (seq![line@] + lines_without(all, st, i + 1)) =~= texts(kept@)
                + lines_without(all, st, i + 1));
        } else {
            assert(before + (Seq::<Text>::empty() + lines_without(all, st, i + 1)) =~= before
                + lines_without(all, st, i + 1));
        }
        i += 1;
    }
    assert(texts(kept@) + lines_without(all, st, i as int) =~= texts(kept@));
    let ghost left = texts(kept@);
    let mut new: String = String::new();
    i = 0;
    assert(new@ + joined(left, nl, 0) =~= joined(left, nl, 0));
    while i < kept.len()
        invariant
            i <= kept@.len(),
            left == texts(kept@),
            nl == seq!['\n'],
            joined(left, nl, 0) == new@ + joined(left, nl, i as int),
        decreases kept@.len() - i,
    {
        let ghost before = new@;
        if i > 0 {
            new.push('\n');
        }
        new.push_str(kept[i]);
        proof {
            let sep: Text = if i > 0 {
                nl
            } else {
                seq![]
            };
            assert(new@ =~= before + sep + left[i as int]);
            assert(before + (sep + left[i as int] + joined(left, nl, i + 1)) =~= new@ + joined(
                left,
                nl,
                i + 1,
            ));
        }
        i += 1;
    }
    assert(new@ + joined(left, nl, i as int) =~= new@);
    let cs = chars_of(new.as_str());
    let n: usize = cs.len();
    let mut a: usize = 0;
    assert(new@.subrange(0, n as int) =~= new@);
    while a < n && cs[a] == '\n'
        invariant
            a <= n == cs@.len(),
            cs@ == new@,
            without_leading_newlines(new@) == without_leading_newlines(
                new@.subrange(a as int, n as int),
            ),
        decreases n - a,
    {
        assert(new@.subrange(a as int, n as int).subrange(1, n - a) =~= new@.subrange(
            a + 1,
            n as int,
        ));
        a += 1;
    }
    *buf = owned(part(new.as_str(), a, n));
}

// ---------------------------------------------------------------------------
// The encoder

/// What an encoder goes by: the number of spaces to a level, the delimiter
/// between values, whether it defines repeated parts, and the definitions.
pub struct Manner {
    pub indent: nat,
    pub delimiter: char,
    pub auto: bool,
    pub stores: Stores,
}

/// What a new encoder goes by.
pub open spec fn new_manner() -> Manner {
    Manner { indent: 1, delimiter: ',', auto: false, stores: no_stores() }
}

/// The definitions with the parts of `t` from the `i`-th on that occur more than
/// once defined as schemas.
pub open spec fn with_repeated(s: Stores, t: Tallies, i: int) -> Stores
    decreases t.len() - i,
{
    if 0 <= i < t.len() {
        with_repeated(
            if t[i].1.count >= 2 {
                defined(s, DefType::Schema, schema_name(t[i].1.path), t[i].1.data)
            } else {
                s
            },
            t,
            i + 1,
        )
    } else {
        s
    }
}

/// The definitions that are written with a value: those that are there, and
/// where the encoder defines repeated parts, those too.
pub open spec fn stores_for(m: Manner, v: Val) -> Stores {
    if m.auto && !is_simple(v) {
        with_repeated(m.stores, collected(v, seq![], seq![], 2), 0)
    } else {
        m.stores
    }
}

/// The definitions and the value as text.
pub open spec fn whole_text(s: Stores, d: char, indent: nat, v: Val) -> Text {
    layout(
        all_definition_lines(s, d) + written_value(Style { delimiter: d, schemas: s.schemas }, v),
        indent,
    )
}

/// `start` with the document for `v` behind it. Where the encoder defines
/// repeated parts, what nothing refers to is taken out of the whole.
pub open spec fn encoded(m: Manner, v: Val, start: Text) -> Text {
    let s = stores_for(m, v);
    let t = start + whole_text(s, m.delimiter, m.indent, v);
    if m.auto {
        pruned(s.schemas, t)
    } else {
        t
    }
}

/// The document for `v`, written by a new encoder with `indent` spaces to a
/// level.
pub open spec fn encode_text(v: Val, indent: nat) -> Text {
    layout(written_value(Style { delimiter: ',', schemas: seq![] }, v), indent)
}

/// Without definitions, the lines of the value are all that is written.
pub proof fn lemma_without_definitions(m: Manner, v: Val, start: Text)
    requires
        m.stores == no_stores(),
        m.delimiter == ',',
        !m.auto,
    ensures
        encoded(m, v, start) == start + encode_text(v, m.indent),
{
    let style = Style { delimiter: ',', schemas: seq![] };
    assert(all_definition_lines(no_stores(), ',') =~= seq![]);
    assert(all_definition_lines(no_stores(), ',') + written_value(style, v) =~= written_value(
        style,
        v,
    ));
}

/// Definitions with values under names.
pub open spec fn definitions(v: Seq<(&str, Value)>) -> Entries {
    Seq::new(v.len(), |i: int| (v[i].0@, v[i].1@))
}

/// The definitions with those of `v` from the `i`-th on.
pub open spec fn with_definitions(s: Stores, d: DefType, v: Entries, i: int) -> Stores
    decreases v.len() - i,
{
    if 0 <= i < v.len() {
        with_definitions(defined(s, d, v[i].0, v[i].1), d, v, i + 1)
    } else {
        s
    }
}

/// Writes documents. Definitions that it is given stand before the value, and
/// objects that equal one are written as references.
pub struct Encoder {
    indent: usize,
    delimiter: char,
    auto_extract: bool,
    registry: SchemaRegistry,
}

impl View for Encoder {
    type V = Manner;

    closed spec fn view(&self) -> Manner {
        Manner {
            indent: self.indent as nat,
            delimiter: self.delimiter,
            auto: self.auto_extract,
            stores: self.registry.stores(),
        }
    }
}

impl Default for Encoder {
    /// An encoder without definitions, with one space to a level.
    fn default() -> (r: Encoder)
        ensures
            r@ == new_manner(),
    {
        Encoder::new()
    }
}

impl Encoder {
    /// An encoder without definitions, with one space to a level.
    pub fn new() -> (r: Encoder)
        ensures
            r@ == new_manner(),
    {
        Encoder {
            indent: 1,
            delimiter: ',',
            auto_extract: false,
            registry: SchemaRegistry::new(),
        }
    }

    /// The encoder with a number of spaces to a level, at least one.
    pub fn with_indent(self, indent: usize) -> (r: Encoder)
        ensures
            r@ == (Manner {
                indent: if indent == 0 {
                    1
                } else {
                    indent as nat
                },
                ..self@
            }),
    {
        let fixed: usize = if indent == 0 {
            1
        } else {
            indent
        };
        Encoder {
            indent: fixed,
            delimiter: self.delimiter,
            auto_extract: self.auto_extract,
            registry: self.registry,
        }
    }

    /// The encoder with a delimiter between values.
    pub fn with_delimiter(self, delimiter: char) -> (r: Encoder)
        ensures
            r@ == (Manner { delimiter, ..self@ }),
    {
        Encoder {
            indent: self.indent,
            delimiter,
            auto_extract: self.auto_extract,
            registry: self.registry,
        }
    }

    /// The encoder that defines repeated parts, or does not.
    pub fn with_auto_extract(self, enabled: bool) -> (r: Encoder)
        ensures
            r@ == (Manner { auto: enabled, ..self@ }),
    {
        Encoder {
            indent: self.indent,
            delimiter: self.delimiter,
            auto_extract: enabled,
            registry: self.registry,
        }
    }

    /// The encoder with definitions of one kind.
    fn with_defs(self, d: DefType, defs: Vec<(&str, Value)>) -> (r: Encoder)
        ensures
            r@ == (Manner {
                stores: with_definitions(self@.stores, d, definitions(defs@), 0),
                ..self@
            }),
    {
        let mut registry: SchemaRegistry = self.registry;
        let ghost all = definitions(defs@);
        let ghost want = with_definitions(self@.stores, d, all, 0);
        let mut i: usize = 0;
        while i < defs.len()
            invariant
                i <= defs@.len(),
                all == definitions(defs@),
                want == with_definitions(registry.stores(), d, all, i as int),
            decreases defs@.len() - i,
        {
            let name: &str = defs[i].0;
            let v = defs[i].1.clone();
            assert(all[i as int] == (name@, v@));
            registry.register(d, name, v);
            i += 1;
        }
        Encoder {
            indent: self.indent,
            delimiter: self.delimiter,
            auto_extract: self.auto_extract,
            registry,
        }
    }

    /// The encoder with definitions of schemas.
    pub fn with_schemas(self, schemas: Vec<(&str, Value)>) -> (r: Encoder)
        ensures
            r@ == (Manner {
                stores: with_definitions(
                    self@.stores,
                    DefType::Schema,
                    definitions(schemas@),
                    0,
                ),
                ..self@
            }),
    {
        self.with_defs(DefType::Schema, schemas)
    }

    /// The encoder with definitions of responses.
    pub fn with_responses(self, responses: Vec<(&str, Value)>) -> (r: Encoder)
        ensures
            r@ == (Manner {
                stores: with_definitions(
                    self@.stores,
                    DefType::Response,
                    definitions(responses@),
                    0,
                ),
                ..self@
            }),
    {
        self.with_defs(DefType::Response, responses)
    }

    /// The encoder with definitions of security schemes.
    pub fn with_security(self, security: Vec<(&str, Value)>) -> (r: Encoder)
        ensures
            r@ == (Manner {
                stores: with_definitions(
                    self@.stores,
                    DefType::Security,
                    definitions(security@),
                    0,
                ),
                ..self@
            }),
    {
        self.with_defs(DefType::Security, security)
    }

    /// The document for a value.
    pub fn encode(&mut self, data: &Value) -> (r: String)
        ensures
            r@ == encoded(old(self)@, data@, seq![]),
            final(self)@ == (Manner { stores: stores_for(old(self)@, data@), ..old(self)@ }),
    {
        let mut buf: String = String::new();
        assert(buf@ =~= seq![]);
        self.encode_to(data, &mut buf);
        buf
    }

    /// Appends the document for a value.
    pub fn encode_to(&mut self, data: &Value, buf: &mut String)
        ensures
            final(buf)@ == encoded(old(self)@, data@, old(buf)@),
            final(self)@ == (Manner { stores: stores_for(old(self)@, data@), ..old(self)@ }),
    {
        if self.auto_extract && !data.is_primitive() {
            self.detect_repeated_schemas(data);
        }
        let ghost s = self.registry.stores();
        let d: char = self.delimiter;
        let ghost ind = self.indent as nat;
        let ghost start = buf@;
        let has_defs = self.emit_definitions(buf);
        let ghost defs = all_definition_lines(s, d);
        let ghost style = Style { delimiter: d, schemas: s.schemas };
        let ghost body = written_value(style, data@);
        if has_defs {
            buf.push('\n');
        }
        let ghost before = buf@;
        self.encode_value(data, buf);
        proof {
            lemma_value_some(style, data@);
            lemma_layout_append(defs, body, ind);
            assert(buf@ =~= start + layout(defs + body, ind));
        }
        if self.auto_extract {
            prune_orphan_schemas(self.registry.get_all(DefType::Schema), buf);
        }
    }

    /// Appends the lines for a value.
    fn encode_value(&self, data: &Value, buf: &mut String)
        ensures
            final(buf)@ == old(buf)@ + layout(
                written_value(
                    Style { delimiter: self@.delimiter, schemas: self@.stores.schemas },
                    data@,
                ),
                self@.indent,
            ),
    {
        let pen: Pen = Pen {
            delimiter: self.delimiter,
            indent: self.indent,
            schemas: self.registry.get_all(DefType::Schema),
        };
        let ghost ind = self.indent as nat;
        proof {
            lemma_no_spaces(ind);
            reveal_strlit("");
            assert(""@ =~= Seq::<char>::empty());
        }
        match data {
            Value::Object(o) => {
                if o.is_empty() {
                    buf.push_str("{}");
                    assert(buf@ =~= old(buf)@ + line_text(Line { depth: 0, text: "{}"@ }, ind));
                } else {
                    pen.encode_object(o, "", Ghost(0int), buf);
                }
            },
            Value::Array(a) => {
                pen.encode_array_value(None, a, "", Ghost(0int), buf);
            },
            _ => {
                write_primitive(data, self.delimiter, buf);
                assert(buf@ =~= old(buf)@ + line_text(
                    Line { depth: 0, text: primitive_text(data@, self.delimiter) },
                    ind,
                ));
            },
        }
    }

    /// Defines the parts of a value that occur more than once.
    fn detect_repeated_schemas(&mut self, data: &Value)
        requires
            old(self)@.auto,
            !is_simple(data@),
        ensures
            final(self)@ == (Manner { stores: stores_for(old(self)@, data@), ..old(self)@ }),
    {
        proof {
            reveal_strlit("");
            assert(""@ =~= Seq::<char>::empty());
        }
        let result = TreeHash::hash_tree(data, "", 2, false);
        let entries = result.index.values();
        let ghost t = result.index@;
        let ghost want = with_repeated(self.registry.stores(), t, 0);
        let mut i: usize = 0;
        while i < entries.len()
            invariant
                i <= entries@.len() == t.len(),
                forall|j: int| 0 <= j < t.len() ==> (#[trigger] entries@[j])@ == t[j].1,
                want == with_repeated(self.registry.stores(), t, i as int),
                self@ == (Manner { stores: self.registry.stores(), ..old(self)@ }),
            decreases entries@.len() - i,
        {
            assert(entries@[i as int]@ == t[i as int].1);
            if entries[i].count >= 2 {
                let name = generate_schema_name(entries[i].path.as_str());
                self.registry.register(DefType::Schema, name.as_str(), entries[i].data.clone());
            }
            i += 1;
        }
    }

    /// Appends the definitions. Whether there were any is the result.
    fn emit_definitions(&self, buf: &mut String) -> (r: bool)
        ensures
            final(buf)@ == old(buf)@ + layout(
                all_definition_lines(self@.stores, self@.delimiter),
                self@.indent,
            ),
            r == (all_definition_lines(self@.stores, self@.delimiter).len() > 0),
    {
        let d: char = self.delimiter;
        let ghost start = buf@;
        let ghost ind = self.indent as nat;
        let schemas = self.registry.get_all(DefType::Schema);
        let responses = self.registry.get_all(DefType::Response);
        let security = self.registry.get_all(DefType::Security);
        let ghost one = definition_lines("s:"@, schemas@, d);
        let ghost two = next_group(one, definition_lines("r:"@, responses@, d));
        assert(buf@ =~= start + layout(seq![], ind));
        let ghost none = Seq::<Line>::empty();
        write_definitions("s:", schemas, d, false, Ghost(start), Ghost(none), Ghost(ind), buf);
        assert(next_group(none, one) =~= one);
        let emitted = schemas.len() > 0;
        write_definitions("r:", responses, d, emitted, Ghost(start), Ghost(one), Ghost(ind), buf);
        let emitted2 = emitted || responses.len() > 0;
        write_definitions("sec:", security, d, emitted2, Ghost(start), Ghost(two), Ghost(ind), buf);
        emitted2 || security.len() > 0
    }
}

/// A value takes at least one line.
proof fn lemma_value_some(e: Style, v: Val)
    ensures
        written_value(e, v).len() >= 1,
{
    match v {
        Val::Object(o) => {
            if o.len() > 0 {
                lemma_entries_some(e, o, 0);
            }
        },
        _ => {},
    }
}

} // verus!
