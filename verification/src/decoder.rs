//! Reading a document: from text to a value.

use vstd::prelude::*;
use vstd::utf8::{encode_utf8, encode_utf8_valid_utf8, is_char_boundary};
use crate::bytes::{behind_bytes, char_from, first_char_from, found_at, offset_of, text_from};
use crate::lines::{
    array_header, classify_lines, classify_segments, define_body, detect_indent, detected_indent,
    key_names, known, lemma_text_total, line_views, read_lines, read_segments, segments,
    split_segments, take_body, try_array_header, unquote, unquote_all, ArrayHeader, Header, Known,
    Line, ParsedLine,
};
use crate::scan::{
    brace_content, bracket_close, find_brace_span, find_bracket_close, find_colon, find_quote_close,
    has_colon, holds_colon, key_colon, outside, pieces, quote_close, unescape, unescape_part,
};
use crate::schema_registry::{kind_of, no_stores, string_texts, DefType, SchemaRegistry, Stores};
use crate::text::{
    begins, chars_of, find, has_char, line_list, lines, owned, part, position, same_text,
    starts_with, texts, trim, trimmed, Text,
};
use crate::tokens::{
    delimited, inline_value, is_reference, parse_delimited_values, parse_inline_value,
    parse_primitive, parse_reference, primitive, reference, split_pieces, token_is_reference,
};
use crate::value::{
    compact, lemma_models, lemma_models_push, models, put, Entries, SconMap, Val, Value,
};

verus! {

// ---------------------------------------------------------------------------
// What lines stand for

/// What a row of lines stands for: a result or what is said against the lines,
/// and the references that are being resolved behind them.
pub struct Out<T> {
    pub result: Result<T, Text>,
    pub open: Seq<Text>,
}

/// A result.
pub open spec fn good<T>(v: T, open: Seq<Text>) -> Out<T> {
    Out { result: Ok(v), open }
}

/// What is said against the lines.
pub open spec fn bad<T>(message: Text, open: Seq<Text>) -> Out<T> {
    Out { result: Err(message), open }
}

/// The line to go on with behind line `i`, where `next` was reached.
pub open spec fn later(i: int, next: int) -> int {
    if next > i {
        next
    } else {
        i + 1
    }
}

/// The lines from `i` on.
pub open spec fn left(lines: Seq<Line>, i: int) -> nat {
    if i < lines.len() {
        (lines.len() - i) as nat
    } else {
        0
    }
}

/// The key that a line begins with, and where it ends.
pub open spec fn leading_key(c: Text) -> Result<(Text, int), Text> {
    if c.len() > 0 && c[0] == '"' {
        match quote_close(c, 1) {
            None => Err("Unterminated quoted key"@),
            Some(q) => if q + 1 < c.len() && c[q + 1] == ':' {
                Ok((unescape(c.subrange(1, q)), q + 2))
            } else {
                Err("Missing colon after key"@)
            },
        }
    } else {
        match find(c, ':') {
            Some(k) => Ok((trim(c.subrange(0, k)), k + 1)),
            None => Err("Missing colon after key"@),
        }
    }
}

/// The key of a line whose key ends at the colon at `k`, and where it ends.
pub open spec fn key_before(c: Text, k: int) -> Result<(Text, int), Text> {
    if c.len() > 0 && c[0] == '"' {
        leading_key(c)
    } else {
        Ok((trim(c.subrange(0, k)), k + 1))
    }
}

/// Whether a line is a list item.
pub open spec fn is_item(t: Text) -> bool {
    starts_with(t, "- "@)
}

/// What a list item says.
pub open spec fn item_text(t: Text) -> Text {
    t.subrange(2, t.len() as int)
}

/// Whether what a list item says is a value on one line: a reference, or
/// anything without a colon, that in quotes at its start aside.
pub open spec fn is_inline_item(t: Text) -> bool {
    is_reference(t) || !has_colon(t)
}

/// The depth of the line `i`, if there is one.
pub open spec fn depth_at(ls: Seq<Line>, i: int) -> int {
    if 0 <= i < ls.len() {
        ls[i].depth
    } else {
        0
    }
}

/// The depth below which the lines of what a list item at depth `depth` begins
/// with stand, where the line behind it stands at depth `next`: one level below
/// the dash, or two where that line does.
pub open spec fn item_base(depth: int, next: int) -> int {
    if next > depth + 1 {
        depth + 1
    } else {
        depth
    }
}

/// The entries that the lines from `i` on stand for at depth `base`, behind
/// `done`, and the line behind them.
pub open spec fn object_lines(
    s: Stores,
    open: Seq<Text>,
    ls: Seq<Line>,
    base: int,
    i: int,
    done: Entries,
) -> Out<(Entries, int)>
    decreases left(ls, i), 4nat,
{
    if i < 0 || i >= ls.len() || ls[i].depth < base {
        good((done, i), open)
    } else if ls[i].depth > base {
        object_lines(s, open, ls, base, i + 1, done)
    } else {
        let t = field(s, open, ls, base, i);
        match t.result {
            Err(m) => bad(m, t.open),
            Ok((Some((k, v)), next)) => object_lines(
                s,
                t.open,
                ls,
                base,
                later(i, next),
                put(done, k, v),
            ),
            Ok((None, _)) => object_lines(s, t.open, ls, base, i + 1, done),
        }
    }
}

/// The entry that the line `i` stands for with the lines below it, if any, and
/// the line behind them.
pub open spec fn field(s: Stores, open: Seq<Text>, ls: Seq<Line>, base: int, i: int) -> Out<
    (Option<(Text, Val)>, int),
>
    decreases left(ls, i), 3nat,
{
    let c = ls[i].text;
    match array_header(c) {
        Some(h) if h.key is Some => {
            let t = array_lines(s, open, ls, i, base, h);
            match t.result {
                Ok((v, next)) => good((Some((h.key->0, v)), next), t.open),
                Err(m) => bad(m, t.open),
            }
        },
        _ => match key_colon(c) {
            Some(k) => {
                let t = key_value(s, open, ls, i, base, k);
                match t.result {
                    Ok((key, v, next)) => good((Some((key, v)), next), t.open),
                    Err(m) => bad(m, t.open),
                }
            },
            None => good((None, i + 1), open),
        },
    }
}

/// The entry that the line `i` stands for, whose key ends at the colon at `k`.
/// A key with nothing behind it takes the lines below it: list items as an
/// array, others as an object.
pub open spec fn key_value(
    s: Stores,
    open: Seq<Text>,
    ls: Seq<Line>,
    i: int,
    base: int,
    k: int,
) -> Out<(Text, Val, int)>
    decreases left(ls, i), 2nat,
{
    let c = ls[i].text;
    match key_before(c, k) {
        Err(m) => bad(m, open),
        Ok((key, end)) => {
            let rest = trim(c.subrange(end, c.len() as int));
            if rest.len() > 0 {
                let (v, then) = inline_value(s, open, rest);
                good((key, v, i + 1), then)
            } else if i + 1 < ls.len() && ls[i + 1].depth > base {
                if ls[i + 1].depth == base + 1 && is_item(ls[i + 1].text) {
                    let t = list_lines(s, open, ls, base, i + 1, seq![]);
                    match t.result {
                        Ok((a, next)) => good((key, Val::Array(a), next), t.open),
                        Err(m) => bad(m, t.open),
                    }
                } else {
                    let t = object_lines(s, open, ls, base + 1, i + 1, seq![]);
                    match t.result {
                        Ok((o, next)) => good((key, Val::Object(o), next), t.open),
                        Err(m) => bad(m, t.open),
                    }
                }
            } else {
                good((key, Val::Object(seq![]), i + 1), open)
            }
        },
    }
}

/// The items that the lines from `j` on stand for below depth `base`, behind
/// `done`.
pub open spec fn list_lines(
    s: Stores,
    open: Seq<Text>,
    ls: Seq<Line>,
    base: int,
    j: int,
    done: Seq<Val>,
) -> Out<(Seq<Val>, int)>
    decreases left(ls, j), 4nat,
{
    if j < 0 || j >= ls.len() || ls[j].depth < base + 1 {
        good((done, j), open)
    } else if ls[j].depth == base + 1 && is_item(ls[j].text) {
        let item = item_text(ls[j].text);
        if is_inline_item(item) {
            let (v, then) = inline_value(s, open, item);
            list_lines(s, then, ls, base, j + 1, done.push(v))
        } else {
            let t = list_item(s, open, ls, j, base);
            match t.result {
                Ok((o, next)) => list_lines(
                    s,
                    t.open,
                    ls,
                    base,
                    later(j, next),
                    done.push(Val::Object(o)),
                ),
                Err(m) => bad(m, t.open),
            }
        }
    } else {
        list_lines(s, open, ls, base, j + 1, done)
    }
}

/// The array that the header `h` on line `i` announces: values on the line, or
/// below depth `base` rows of a table or list items.
pub open spec fn array_lines(
    s: Stores,
    open: Seq<Text>,
    ls: Seq<Line>,
    i: int,
    base: int,
    h: Header,
) -> Out<(Val, int)>
    decreases left(ls, i), 1nat,
{
    if h.length == 0 || i < 0 || i >= ls.len() {
        good((Val::Array(seq![]), i + 1), open)
    } else {
        match h.fields {
            None => match h.inline {
                Some(x) => {
                    let (a, then) = delimited(s, open, x, h.delimiter, 0, seq![]);
                    good((Val::Array(a), i + 1), then)
                },
                None => {
                    let t = expanded_lines(s, open, ls, base, h.length, i + 1, seq![]);
                    match t.result {
                        Ok((a, next)) => good((Val::Array(a), next), t.open),
                        Err(m) => bad(m, t.open),
                    }
                },
            },
            Some(f) => {
                let (a, next, then) = table_lines(
                    s,
                    open,
                    ls,
                    base + 1,
                    h.length,
                    f,
                    h.delimiter,
                    i + 1,
                    seq![],
                );
                good((Val::Array(a), next), then)
            },
        }
    }
}

/// A row of a table: a value for each field from `k` on, and `null` where there
/// is none, behind `done`.
pub open spec fn row(fields: Seq<Text>, values: Seq<Val>, k: int, done: Entries) -> Entries
    decreases fields.len() - k,
{
    if 0 <= k < fields.len() {
        let v = if k < values.len() {
            values[k]
        } else {
            Val::Null
        };
        row(fields, values, k + 1, put(done, fields[k], v))
    } else {
        done
    }
}

/// The rows that the lines from `j` on stand for, behind `done`: at most `n` in
/// all, as long as the lines stand at depth `depth`.
pub open spec fn table_lines(
    s: Stores,
    open: Seq<Text>,
    ls: Seq<Line>,
    depth: int,
    n: nat,
    fields: Seq<Text>,
    d: char,
    j: int,
    done: Seq<Val>,
) -> (Seq<Val>, int, Seq<Text>)
    decreases ls.len() - j,
{
    if 0 <= j < ls.len() && done.len() < n && ls[j].depth == depth {
        let (values, then) = delimited(s, open, ls[j].text, d, 0, seq![]);
        table_lines(
            s,
            then,
            ls,
            depth,
            n,
            fields,
            d,
            j + 1,
            done.push(Val::Object(row(fields, values, 0, seq![]))),
        )
    } else {
        (done, j, open)
    }
}

/// The items that the lines from `j` on stand for below depth `base`, behind
/// `done`: at most `n` in all.
pub open spec fn expanded_lines(
    s: Stores,
    open: Seq<Text>,
    ls: Seq<Line>,
    base: int,
    n: nat,
    j: int,
    done: Seq<Val>,
) -> Out<(Seq<Val>, int)>
    decreases left(ls, j), 4nat,
{
    if j < 0 || j >= ls.len() || done.len() >= n || ls[j].depth != base + 1 {
        good((done, j), open)
    } else if !is_item(ls[j].text) {
        expanded_lines(s, open, ls, base, n, j + 1, done)
    } else {
        let item = item_text(ls[j].text);
        match array_header(item) {
            Some(h) if h.key is None => match h.inline {
                Some(x) => {
                    let (a, then) = delimited(s, open, x, h.delimiter, 0, seq![]);
                    expanded_lines(s, then, ls, base, n, j + 1, done.push(Val::Array(a)))
                },
                None => {
                    let t = array_lines(
                        s,
                        open,
                        ls,
                        j,
                        item_base(base + 1, depth_at(ls, j + 1)),
                        h,
                    );
                    match t.result {
                        Ok((v, next)) => expanded_lines(
                            s,
                            t.open,
                            ls,
                            base,
                            n,
                            later(j, next),
                            done.push(v),
                        ),
                        Err(m) => bad(m, t.open),
                    }
                },
            },
            _ => if is_inline_item(item) {
                let (v, then) = inline_value(s, open, item);
                expanded_lines(s, then, ls, base, n, j + 1, done.push(v))
            } else {
                let t = list_item(s, open, ls, j, base);
                match t.result {
                    Ok((o, next)) => expanded_lines(
                        s,
                        t.open,
                        ls,
                        base,
                        n,
                        later(j, next),
                        done.push(Val::Object(o)),
                    ),
                    Err(m) => bad(m, t.open),
                }
            },
        }
    }
}

/// The entry that a list item begins with, if any, and the line behind it.
pub open spec fn item_head(s: Stores, open: Seq<Text>, ls: Seq<Line>, i: int, base: int) -> Out<
    (Entries, int),
>
    decreases left(ls, i), 2nat,
{
    let item = item_text(ls[i].text);
    match array_header(item) {
        Some(h) => match h.key {
            Some(k) => {
                let t = array_lines(
                    s,
                    open,
                    ls,
                    i,
                    item_base(base + 1, depth_at(ls, i + 1)),
                    h,
                );
                match t.result {
                    Ok((v, next)) => good((seq![(k, v)], next), t.open),
                    Err(m) => bad(m, t.open),
                }
            },
            None => good((seq![], i + 1), open),
        },
        None => match leading_key(item) {
            Err(m) => bad(m, open),
            Ok((k, end)) => {
                let rest = trim(item.subrange(end, item.len() as int));
                if rest.len() > 0 {
                    let (v, then) = inline_value(s, open, rest);
                    good((seq![(k, v)], i + 1), then)
                } else if i + 1 < ls.len() && ls[i + 1].depth >= base + 2 {
                    let below = item_base(base + 1, ls[i + 1].depth) + 1;
                    let t = object_lines(s, open, ls, below, i + 1, seq![]);
                    match t.result {
                        Ok((o, next)) => good((seq![(k, Val::Object(o))], next), t.open),
                        Err(m) => bad(m, t.open),
                    }
                } else {
                    good((seq![(k, Val::Object(seq![]))], i + 1), open)
                }
            },
        },
    }
}

/// The object that the list item on line `i` stands for, with the lines below
/// it.
pub open spec fn list_item(s: Stores, open: Seq<Text>, ls: Seq<Line>, i: int, base: int) -> Out<
    (Entries, int),
>
    decreases left(ls, i), 3nat,
{
    if i < 0 || i >= ls.len() {
        good((seq![], i + 1), open)
    } else {
        let t = item_head(s, open, ls, i, base);
        match t.result {
            Ok((o, next)) => more_fields(s, t.open, ls, base + 2, later(i, next), o),
            Err(m) => bad(m, t.open),
        }
    }
}

/// The entries of a list item on the lines from `i` on at depth `depth`, behind
/// `done`. Another list item at that depth ends them.
pub open spec fn more_fields(
    s: Stores,
    open: Seq<Text>,
    ls: Seq<Line>,
    depth: int,
    i: int,
    done: Entries,
) -> Out<(Entries, int)>
    decreases left(ls, i), 4nat,
{
    if i < 0 || i >= ls.len() || ls[i].depth < depth {
        good((done, i), open)
    } else if ls[i].depth > depth {
        more_fields(s, open, ls, depth, i + 1, done)
    } else if is_item(ls[i].text) {
        good((done, i), open)
    } else {
        let t = field(s, open, ls, depth, i);
        match t.result {
            Err(m) => bad(m, t.open),
            Ok((Some((k, v)), next)) => more_fields(
                s,
                t.open,
                ls,
                depth,
                later(i, next),
                put(done, k, v),
            ),
            Ok((None, _)) => more_fields(s, t.open, ls, depth, i + 1, done),
        }
    }
}

/// The value that the lines of a document stand for.
pub open spec fn document(s: Stores, open: Seq<Text>, ls: Seq<Line>) -> Out<Val> {
    if ls.len() == 0 || (ls.len() == 1 && ls[0].text == "{}"@) {
        good(Val::Object(seq![]), open)
    } else {
        match array_header(ls[0].text) {
            Some(h) if h.key is None => {
                let t = array_lines(s, open, ls, 0, ls[0].depth, h);
                match t.result {
                    Ok((v, _)) => good(v, t.open),
                    Err(m) => bad(m, t.open),
                }
            },
            _ => if ls.len() == 1 && !has_colon(ls[0].text) {
                let (v, then) = primitive(s, open, ls[0].text);
                good(v, then)
            } else {
                let t = object_lines(s, open, ls, 0, 0, seq![]);
                match t.result {
                    Ok((o, _)) => good(Val::Object(o), t.open),
                    Err(m) => bad(m, t.open),
                }
            },
        }
    }
}

/// Whether a document is minified: it stands on one line, with a semicolon.
pub open spec fn is_minified(input: Text) -> bool {
    !input.contains('\n') && input.contains(';')
}

/// The lines that hold the value of a document, and what is known of
/// definitions.
pub open spec fn document_lines(k: Known, input: Text, indent: nat) -> (Known, Seq<Line>) {
    if is_minified(input) {
        read_segments(k, segments(input), 0, 0, seq![])
    } else {
        read_lines(k, lines(input), indent, 0, seq![])
    }
}

// ---------------------------------------------------------------------------
// Reading lines

/// A map and a position, or a message.
pub open spec fn as_entries(r: Result<(SconMap, usize), String>) -> Result<(Entries, int), Text> {
    match r {
        Ok((m, n)) => Ok((m@, n as int)),
        Err(e) => Err(e@),
    }
}

/// Values and a position, or a message.
pub open spec fn as_items(r: Result<(Vec<Value>, usize), String>) -> Result<(Seq<Val>, int), Text> {
    match r {
        Ok((a, n)) => Ok((models(a@), n as int)),
        Err(e) => Err(e@),
    }
}

/// A value and a position, or a message.
pub open spec fn as_val(r: Result<(Value, usize), String>) -> Result<(Val, int), Text> {
    match r {
        Ok((v, n)) => Ok((v@, n as int)),
        Err(e) => Err(e@),
    }
}

/// A key, its value and a position, or a message.
pub open spec fn as_pair(r: Result<(String, Value, usize), String>) -> Result<(Text, Val, int), Text> {
    match r {
        Ok((k, v, n)) => Ok((k@, v@, n as int)),
        Err(e) => Err(e@),
    }
}

/// A key and its value, if any, and a position, or a message.
pub open spec fn as_field(r: Result<(Option<(String, Value)>, usize), String>) -> Result<
    (Option<(Text, Val)>, int),
    Text,
> {
    match r {
        Ok((Some((k, v)), n)) => Ok((Some((k@, v@)), n as int)),
        Ok((None, n)) => Ok((None, n as int)),
        Err(e) => Err(e@),
    }
}

/// A key and where it ends, or a message.
pub open spec fn as_key(r: Result<(String, usize), String>) -> Result<(Text, int), Text> {
    match r {
        Ok((k, n)) => Ok((k@, n as int)),
        Err(e) => Err(e@),
    }
}

/// Whether reading came to `want`: the result, the definitions as they were,
/// and the references that are being resolved.
pub open spec fn came_to<T>(
    want: Out<T>,
    got: Result<T, Text>,
    before: SchemaRegistry,
    after: SchemaRegistry,
) -> bool {
    got == want.result && after.open() == want.open && after.stores() == before.stores()
}

/// The key that a line begins with, and where it ends.
pub(crate) fn parse_key(content: &str) -> (r: Result<(String, usize), String>)
    ensures
        as_key(r) == leading_key(content@),
        r matches Ok((_, n)) ==> n <= content@.len(),
{
    let cs = chars_of(content);
    let n: usize = cs.len();
    if n > 0 && cs[0] == '"' {
        match find_quote_close(&cs, 1) {
            None => Err(owned("Unterminated quoted key")),
            Some(q) => {
                if n - q > 1 && cs[q + 1] == ':' {
                    Ok((unescape_part(&cs, 1, q), q + 2))
                } else {
                    Err(owned("Missing colon after key"))
                }
            },
        }
    } else {
        match position(&cs, ':') {
            Some(k) => Ok((owned(trimmed(part(content, 0, k))), k + 1)),
            None => Err(owned("Missing colon after key")),
        }
    }
}

/// The text of a list item, where a line is one.
pub(crate) fn item_of<'a>(t: &'a str) -> (r: Option<&'a str>)
    ensures
        match r {
            Some(x) => is_item(t@) && x@ == item_text(t@),
            None => !is_item(t@),
        },
{
    if begins(t, "- ") {
        proof {
            reveal_strlit("- ");
        }
        let n: usize = chars_of(t).len();
        Some(part(t, 2, n))
    } else {
        None
    }
}

/// Whether what a list item says is a value on one line.
pub(crate) fn item_is_inline(item: &str) -> (r: bool)
    ensures
        r == is_inline_item(item@),
{
    token_is_reference(item) || !holds_colon(item)
}

/// The depth below which the lines of what a list item begins with stand.
pub(crate) fn item_floor(ls: &Vec<ParsedLine>, i: usize, base: usize) -> (r: usize)
    requires
        i < ls@.len(),
        base < usize::MAX,
    ensures
        r == item_base(base + 1, depth_at(line_views(ls@), i + 1)),
{
    let above: usize = base + 1;
    if i < ls.len() - 1 {
        assert(line_views(ls@)[i + 1] == ls@[i + 1]@);
        if ls[i + 1].depth > above && ls[i + 1].depth - 1 > above {
            return above + 1;
        }
    }
    above
}

/// The entries that the lines from `start` on stand for.
pub(crate) fn decode_object(
    reg: &mut SchemaRegistry,
    base: usize,
    ls: &Vec<ParsedLine>,
    start: usize,
) -> (r: Result<(SconMap, usize), String>)
    requires
        start <= ls@.len(),
    ensures
        came_to(
            object_lines(
                old(reg).stores(),
                old(reg).open(),
                line_views(ls@),
                base as int,
                start as int,
                seq![],
            ),
            as_entries(r),
            *old(reg),
            *final(reg),
        ),
        r matches Ok((_, n)) ==> start <= n <= ls@.len(),
    decreases left(line_views(ls@), start as int), 4nat,
{
    let mut result: SconMap = SconMap::new();
    let mut i: usize = start;
    let ghost s = reg.stores();
    let ghost v = line_views(ls@);
    assert(result@ =~= seq![]);
    let ghost want = object_lines(s, reg.open(), v, base as int, start as int, seq![]);
    while i < ls.len()
        invariant
            start <= i <= ls@.len(),
            v == line_views(ls@),
            reg.stores() == s,
            s == old(reg).stores(),
            want == object_lines(s, reg.open(), v, base as int, i as int, result@),
            want == object_lines(
                old(reg).stores(),
                old(reg).open(),
                line_views(ls@),
                base as int,
                start as int,
                seq![],
            ),
        decreases ls@.len() - i,
    {
        assert(v[i as int] == ls@[i as int]@);
        if ls[i].depth < base {
            return Ok((result, i));
        }
        if ls[i].depth > base {
            i += 1;
        } else {
            match decode_field(reg, ls, i, base) {
                Ok((Some((k, x)), next)) => {
                    result.insert(compact(k.as_str()), x);
                    i = next;
                },
                Ok((None, _)) => {
                    i += 1;
                },
                Err(m) => {
                    return Err(m);
                },
            }
        }
    }
    Ok((result, i))
}

/// The entry that a line stands for with the lines below it, if any.
fn decode_field(reg: &mut SchemaRegistry, ls: &Vec<ParsedLine>, i: usize, base: usize) -> (r: Result<
    (Option<(String, Value)>, usize),
    String,
>)
    requires
        i < ls@.len(),
        ls@[i as int].depth == base,
    ensures
        came_to(
            field(old(reg).stores(), old(reg).open(), line_views(ls@), base as int, i as int),
            as_field(r),
            *old(reg),
            *final(reg),
        ),
        r matches Ok((_, n)) ==> i < n <= ls@.len(),
    decreases left(line_views(ls@), i as int), 3nat,
{
    let total: usize = ls.len();
    let content = ls[i].content;
    assert(line_views(ls@)[i as int] == ls@[i as int]@);
    if let Some(header) = try_array_header(content) {
        if let Some(key) = header.key {
            return match decode_array_from_header(reg, i, base, ls, &header) {
                Ok((v, next)) => Ok((Some((unquote(key), v)), next)),
                Err(m) => Err(m),
            };
        }
    }
    match find_colon(&chars_of(content)) {
        Some(k) => match decode_key_value(reg, ls, i, base, k) {
            Ok((key, v, next)) => Ok((Some((key, v)), next)),
            Err(m) => Err(m),
        },
        None => Ok((None, i + 1)),
    }
}

/// The entry that a line stands for, whose key ends at a colon.
fn decode_key_value(
    reg: &mut SchemaRegistry,
    ls: &Vec<ParsedLine>,
    i: usize,
    base: usize,
    colon: usize,
) -> (r: Result<(String, Value, usize), String>)
    requires
        i < ls@.len(),
        colon < ls@[i as int].content@.len(),
    ensures
        came_to(
            key_value(
                old(reg).stores(),
                old(reg).open(),
                line_views(ls@),
                i as int,
                base as int,
                colon as int,
            ),
            as_pair(r),
            *old(reg),
            *final(reg),
        ),
        r matches Ok((_, _, n)) ==> i < n <= ls@.len(),
    decreases left(line_views(ls@), i as int), 2nat,
{
    let total: usize = ls.len();
    let content = ls[i].content;
    let cs = chars_of(content);
    let n: usize = cs.len();
    let ghost v = line_views(ls@);
    assert(v[i as int] == ls@[i as int]@);
    let found: Result<(String, usize), String> = if cs[0] == '"' {
        parse_key(content)
    } else {
        Ok((owned(trimmed(part(content, 0, colon))), colon + 1))
    };
    match found {
        Err(m) => Err(m),
        Ok((key, end)) => {
            let rest = trimmed(part(content, end, n));
            if !rest.is_empty() {
                let x = parse_inline_value(reg, rest);
                return Ok((key, x, i + 1));
            }
            if i + 1 < total {
                assert(v[i + 1] == ls@[i + 1]@);
                if ls[i + 1].depth > base {
                    if ls[i + 1].depth == base + 1 && item_of(ls[i + 1].content).is_some() {
                        return match decode_list(reg, ls, i + 1, base) {
                            Ok((a, next)) => Ok((key, Value::Array(a), next)),
                            Err(m) => Err(m),
                        };
                    }
                    return match decode_object(reg, base + 1, ls, i + 1) {
                        Ok((o, next)) => Ok((key, Value::Object(o), next)),
                        Err(m) => Err(m),
                    };
                }
            }
            let none: SconMap = SconMap::new();
            assert(none@ =~= seq![]);
            Ok((key, Value::Object(none), i + 1))
        },
    }
}

/// The items that the lines from `start` on stand for.
fn decode_list(reg: &mut SchemaRegistry, ls: &Vec<ParsedLine>, start: usize, base: usize) -> (r: Result<
    (Vec<Value>, usize),
    String,
>)
    requires
        start < ls@.len(),
        ls@[start as int].depth == base + 1,
        is_item(ls@[start as int].content@),
    ensures
        came_to(
            list_lines(
                old(reg).stores(),
                old(reg).open(),
                line_views(ls@),
                base as int,
                start as int,
                seq![],
            ),
            as_items(r),
            *old(reg),
            *final(reg),
        ),
        r matches Ok((_, n)) ==> start <= n <= ls@.len(),
    decreases left(line_views(ls@), start as int), 4nat,
{
    let mut items: Vec<Value> = Vec::new();
    let mut j: usize = start;
    let child: usize = base + 1;
    let ghost s = reg.stores();
    let ghost v = line_views(ls@);
    let ghost want = list_lines(s, reg.open(), v, base as int, start as int, seq![]);
    while j < ls.len() && ls[j].depth >= child
        invariant
            start <= j <= ls@.len(),
            child == base + 1,
            v == line_views(ls@),
            reg.stores() == s,
            s == old(reg).stores(),
            want == list_lines(s, reg.open(), v, base as int, j as int, models(items@)),
            want == list_lines(
                old(reg).stores(),
                old(reg).open(),
                line_views(ls@),
                base as int,
                start as int,
                seq![],
            ),
        decreases ls@.len() - j,
    {
        assert(v[j as int] == ls@[j as int]@);
        let mut next: usize = j + 1;
        if ls[j].depth == child {
            if let Some(item) = item_of(ls[j].content) {
                let x: Value = if item_is_inline(item) {
                    parse_inline_value(reg, item)
                } else {
                    match decode_list_item_object(reg, ls, j, base) {
                        Ok((o, n)) => {
                            next = n;
                            Value::Object(o)
                        },
                        Err(m) => {
                            return Err(m);
                        },
                    }
                };
                proof {
                    lemma_models_push(items@, x);
                }
                items.push(x);
            }
        }
        j = next;
    }
    if j < ls.len() {
        assert(v[j as int] == ls@[j as int]@);
    }
    Ok((items, j))
}

/// The array that a header announces.
pub(crate) fn decode_array_from_header(
    reg: &mut SchemaRegistry,
    i: usize,
    base: usize,
    ls: &Vec<ParsedLine>,
    header: &ArrayHeader,
) -> (r: Result<(Value, usize), String>)
    requires
        i < ls@.len(),
    ensures
        came_to(
            array_lines(old(reg).stores(), old(reg).open(), line_views(ls@), i as int, base as int, header@),
            as_val(r),
            *old(reg),
            *final(reg),
        ),
        r matches Ok((_, n)) ==> i < n <= ls@.len(),
    decreases left(line_views(ls@), i as int), 1nat,
{
    let total: usize = ls.len();
    assert(line_views(ls@)[i as int] == ls@[i as int]@);
    if header.length == 0 {
        let none: Vec<Value> = Vec::new();
        return Ok((Value::Array(none), i + 1));
    }
    if let Some(fields) = &header.fields {
        let (rows, next) = decode_tabular_array(reg, i, base, ls, header.length, fields, header.delimiter);
        return Ok((Value::Array(rows), next));
    }
    if let Some(inline) = header.inline_values {
        let values = parse_delimited_values(reg, inline, header.delimiter);
        return Ok((Value::Array(values), i + 1));
    }
    match decode_expanded_array(reg, i, base, ls, header.length) {
        Ok((a, next)) => Ok((Value::Array(a), next)),
        Err(m) => Err(m),
    }
}

/// A row of a table.
fn make_row(fields: &Vec<String>, values: &Vec<Value>) -> (r: SconMap)
    ensures
        r@ == row(string_texts(fields@), models(values@), 0, seq![]),
{
    let mut out: SconMap = SconMap::new();
    let mut k: usize = 0;
    assert(out@ =~= seq![]);
    proof {
        lemma_models(values@);
    }
    while k < fields.len()
        invariant
            k <= fields@.len(),
            models(values@).len() == values@.len(),
            forall|j: int| 0 <= j < values@.len() ==> models(values@)[j] == (#[trigger] values@[j])@,
            row(string_texts(fields@), models(values@), 0, seq![]) == row(
                string_texts(fields@),
                models(values@),
                k as int,
                out@,
            ),
        decreases fields@.len() - k,
    {
        let v: Value = if k < values.len() {
            values[k].clone()
        } else {
            Value::Null
        };
        out.insert(compact(fields[k].as_str()), v);
        k += 1;
    }
    out
}

/// The rows of a table.
fn decode_tabular_array(
    reg: &mut SchemaRegistry,
    i: usize,
    base: usize,
    ls: &Vec<ParsedLine>,
    expected: usize,
    fields: &Vec<&str>,
    delimiter: char,
) -> (r: (Vec<Value>, usize))
    requires
        i < ls@.len(),
    ensures
        table_lines(
            old(reg).stores(),
            old(reg).open(),
            line_views(ls@),
            base + 1,
            expected as nat,
            key_names(texts(fields@)),
            delimiter,
            i + 1,
            seq![],
        ) == (models(r.0@), r.1 as int, final(reg).open()),
        final(reg).stores() == old(reg).stores(),
        i < r.1 <= ls@.len(),
{
    let total: usize = ls.len();
    let names = unquote_all(fields);
    let mut rows: Vec<Value> = Vec::new();
    let mut j: usize = i + 1;
    let ghost s = reg.stores();
    let ghost v = line_views(ls@);
    let ghost f = key_names(texts(fields@));
    let ghost want = table_lines(
        s,
        reg.open(),
        v,
        base + 1,
        expected as nat,
        f,
        delimiter,
        i + 1,
        seq![],
    );
    while j < ls.len() && rows.len() < expected && ls[j].depth > base && ls[j].depth - 1 == base
        invariant
            i < j <= ls@.len(),
            v == line_views(ls@),
            f == string_texts(names@),
            reg.stores() == s,
            models(rows@).len() == rows@.len(),
            want == table_lines(
                s,
                reg.open(),
                v,
                base + 1,
                expected as nat,
                f,
                delimiter,
                j as int,
                models(rows@),
            ),
        decreases ls@.len() - j,
    {
        assert(v[j as int] == ls@[j as int]@);
        let values = parse_delimited_values(reg, ls[j].content, delimiter);
        let new: Value = Value::Object(make_row(&names, &values));
        proof {
            lemma_models_push(rows@, new);
        }
        rows.push(new);
        j += 1;
    }
    if j < ls.len() {
        assert(v[j as int] == ls@[j as int]@);
    }
    (rows, j)
}

/// The list items of an array.
fn decode_expanded_array(
    reg: &mut SchemaRegistry,
    i: usize,
    base: usize,
    ls: &Vec<ParsedLine>,
    expected: usize,
) -> (r: Result<(Vec<Value>, usize), String>)
    requires
        i < ls@.len(),
    ensures
        came_to(
            expanded_lines(
                old(reg).stores(),
                old(reg).open(),
                line_views(ls@),
                base as int,
                expected as nat,
                i + 1,
                seq![],
            ),
            as_items(r),
            *old(reg),
            *final(reg),
        ),
        r matches Ok((_, n)) ==> i < n <= ls@.len(),
    decreases left(line_views(ls@), i + 1), 4nat,
{
    let total: usize = ls.len();
    let mut items: Vec<Value> = Vec::new();
    let mut j: usize = i + 1;
    let ghost s = reg.stores();
    let ghost v = line_views(ls@);
    let ghost want = expanded_lines(
        s,
        reg.open(),
        v,
        base as int,
        expected as nat,
        i + 1,
        seq![],
    );
    while j < ls.len() && items.len() < expected && ls[j].depth > base && ls[j].depth - 1 == base
        invariant
            i < j <= ls@.len(),
            v == line_views(ls@),
            reg.stores() == s,
            s == old(reg).stores(),
            models(items@).len() == items@.len(),
            want == expanded_lines(
                s,
                reg.open(),
                v,
                base as int,
                expected as nat,
                j as int,
                models(items@),
            ),
            want == expanded_lines(
                old(reg).stores(),
                old(reg).open(),
                line_views(ls@),
                base as int,
                expected as nat,
                i + 1,
                seq![],
            ),
        decreases ls@.len() - j,
    {
        assert(v[j as int] == ls@[j as int]@);
        let mut next: usize = j + 1;
        if let Some(item) = item_of(ls[j].content) {
            let unkeyed: Option<ArrayHeader> = match try_array_header(item) {
                Some(header) if header.key.is_none() => Some(header),
                _ => None,
            };
            let x: Value = if let Some(header) = unkeyed {
                if let Some(inline) = header.inline_values {
                    Value::Array(parse_delimited_values(reg, inline, header.delimiter))
                } else {
                    match decode_array_from_header(reg, j, item_floor(ls, j, base), ls, &header) {
                        Ok((a, n)) => {
                            next = n;
                            a
                        },
                        Err(m) => {
                            return Err(m);
                        },
                    }
                }
            } else if item_is_inline(item) {
                parse_inline_value(reg, item)
            } else {
                match decode_list_item_object(reg, ls, j, base) {
                    Ok((o, n)) => {
                        next = n;
                        Value::Object(o)
                    },
                    Err(m) => {
                        return Err(m);
                    },
                }
            };
            proof {
                lemma_models_push(items@, x);
            }
            items.push(x);
        }
        j = next;
    }
    if j < ls.len() {
        assert(v[j as int] == ls@[j as int]@);
    }
    Ok((items, j))
}

/// The entry that a list item begins with, if any.
fn decode_item_head(reg: &mut SchemaRegistry, ls: &Vec<ParsedLine>, i: usize, base: usize) -> (r: Result<
    (SconMap, usize),
    String,
>)
    requires
        i < ls@.len(),
        ls@[i as int].depth == base + 1,
        is_item(ls@[i as int].content@),
    ensures
        came_to(
            item_head(old(reg).stores(), old(reg).open(), line_views(ls@), i as int, base as int),
            as_entries(r),
            *old(reg),
            *final(reg),
        ),
        r matches Ok((_, n)) ==> i < n <= ls@.len(),
    decreases left(line_views(ls@), i as int), 2nat,
{
    let total: usize = ls.len();
    let ghost v = line_views(ls@);
    assert(v[i as int] == ls@[i as int]@);
    let mut out: SconMap = SconMap::new();
    assert(out@ =~= seq![]);
    let item = match item_of(ls[i].content) {
        Some(x) => x,
        None => "",
    };
    if let Some(header) = try_array_header(item) {
        if let Some(key) = header.key {
            return match decode_array_from_header(reg, i, item_floor(ls, i, base), ls, &header) {
                Ok((x, next)) => {
                    let name = unquote(key);
                    out.insert(compact(name.as_str()), x);
                    assert(out@ =~= seq![(name@, x@)]);
                    Ok((out, next))
                },
                Err(m) => Err(m),
            };
        }
        return Ok((out, i + 1));
    }
    match parse_key(item) {
        Err(m) => Err(m),
        Ok((key, end)) => {
            let n: usize = chars_of(item).len();
            let rest = trimmed(part(item, end, n));
            let mut next: usize = i + 1;
            let mut x: Value = Value::Null;
            if !rest.is_empty() {
                x = parse_inline_value(reg, rest);
            } else {
                let mut below = false;
                if i + 1 < total {
                    assert(v[i + 1] == ls@[i + 1]@);
                    below = ls[i + 1].depth > base + 1;
                }
                if below {
                    match decode_object(reg, item_floor(ls, i, base) + 1, ls, i + 1) {
                        Ok((o, k)) => {
                            next = k;
                            x = Value::Object(o);
                        },
                        Err(m) => {
                            return Err(m);
                        },
                    }
                } else {
                    let none: SconMap = SconMap::new();
                    assert(none@ =~= seq![]);
                    x = Value::Object(none);
                }
            }
            out.insert(compact(key.as_str()), x);
            assert(out@ =~= seq![(key@, x@)]);
            Ok((out, next))
        },
    }
}

/// The object that a list item stands for.
fn decode_list_item_object(
    reg: &mut SchemaRegistry,
    ls: &Vec<ParsedLine>,
    index: usize,
    base: usize,
) -> (r: Result<(SconMap, usize), String>)
    requires
        index < ls@.len(),
        ls@[index as int].depth == base + 1,
        is_item(ls@[index as int].content@),
    ensures
        came_to(
            list_item(
                old(reg).stores(),
                old(reg).open(),
                line_views(ls@),
                index as int,
                base as int,
            ),
            as_entries(r),
            *old(reg),
            *final(reg),
        ),
        r matches Ok((_, n)) ==> index < n <= ls@.len(),
    decreases left(line_views(ls@), index as int), 3nat,
{
    let ghost v = line_views(ls@);
    let above: usize = base + 1;
    match decode_item_head(reg, ls, index, base) {
        Err(m) => Err(m),
        Ok((head, start)) => {
            let mut result: SconMap = head;
            let mut i: usize = start;
            let ghost s = reg.stores();
            let ghost want = more_fields(s, reg.open(), v, base + 2, start as int, result@);
            while i < ls.len() && ls[i].depth > above
                invariant
                    index < start <= i <= ls@.len(),
                    v == line_views(ls@),
                    above == base + 1,
                    reg.stores() == s,
                    s == old(reg).stores(),
                    want == more_fields(s, reg.open(), v, base + 2, i as int, result@),
                    want == list_item(
                        old(reg).stores(),
                        old(reg).open(),
                        line_views(ls@),
                        index as int,
                        base as int,
                    ),
                decreases ls@.len() - i,
            {
                assert(v[i as int] == ls@[i as int]@);
                let mut next: usize = i + 1;
                if ls[i].depth - 1 == above {
                    if item_of(ls[i].content).is_some() {
                        return Ok((result, i));
                    }
                    match decode_field(reg, ls, i, above + 1) {
                        Ok((Some((k, x)), n)) => {
                            result.insert(compact(k.as_str()), x);
                            next = n;
                        },
                        Ok((None, _)) => {},
                        Err(m) => {
                            return Err(m);
                        },
                    }
                }
                i = next;
            }
            if i < ls.len() {
                assert(v[i as int] == ls@[i as int]@);
            }
            Ok((result, i))
        },
    }
}

// ---------------------------------------------------------------------------
// The decoder

/// What a decoder goes by: the number of spaces to a level, whether it finds
/// that number out from each document, and the definitions that it knows.
pub struct Setting {
    pub indent: nat,
    pub auto: bool,
    pub known: Known,
}

/// The number of spaces to a level with which a document is read.
pub open spec fn indent_for(d: Setting, input: Text) -> nat {
    if d.auto && !is_minified(input) {
        detected_indent(input, d.indent)
    } else {
        d.indent
    }
}

/// The value of a document or what is said against it, and what the decoder
/// goes by from then on.
pub open spec fn decode_step(d: Setting, input: Text) -> (Result<Val, Text>, Setting) {
    let indent = indent_for(d, input);
    let (k, ls) = document_lines(d.known, input, indent);
    let out = document(k.stores, k.open, ls);
    (
        out.result,
        Setting { indent, auto: d.auto, known: Known { stores: k.stores, open: out.open } },
    )
}

/// What a new decoder goes by.
pub open spec fn new_setting() -> Setting {
    Setting { indent: 1, auto: true, known: Known { stores: no_stores(), open: seq![] } }
}

/// The value of a document, read by a new decoder.
pub open spec fn decode_text(input: Text) -> Result<Val, Text> {
    decode_step(new_setting(), input).0
}

/// A value or a message.
pub open spec fn as_value(r: Result<Value, String>) -> Result<Val, Text> {
    match r {
        Ok(v) => Ok(v@),
        Err(e) => Err(e@),
    }
}

/// The character by which a delimiter splits: the one whose code is the low
/// byte of its own, where that is an ASCII character.
pub open spec fn splitter(d: char) -> Option<char> {
    let low = d as u32 % 256;
    if low < 128 {
        Some(low as char)
    } else {
        None
    }
}

/// The pieces of a text at a delimiter that may have no character to split by.
pub open spec fn pieces_at(s: Text, d: Option<char>) -> Seq<Text> {
    match d {
        Some(c) => pieces(s, c),
        None => if s.len() == 0 {
            seq![]
        } else {
            seq![s]
        },
    }
}

/// A position as a number.
pub open spec fn as_position(r: Option<usize>) -> Option<int> {
    match r {
        Some(n) => Some(n as int),
        None => None,
    }
}

/// Reads documents. Definitions that it reads stay known to it.
pub struct Decoder {
    indent: usize,
    indent_auto_detect: bool,
    registry: SchemaRegistry,
}

impl Default for Decoder {
    /// A decoder that knows no definitions and finds the indentation out.
    fn default() -> (r: Decoder)
        ensures
            r@ == new_setting(),
    {
        Decoder::new()
    }
}

impl View for Decoder {
    type V = Setting;

    closed spec fn view(&self) -> Setting {
        Setting {
            indent: self.indent as nat,
            auto: self.indent_auto_detect,
            known: known(self.registry),
        }
    }
}

impl Decoder {
    /// A decoder that knows no definitions and finds the indentation out.
    pub fn new() -> (r: Decoder)
        ensures
            r@ == new_setting(),
    {
        Decoder { indent: 1, indent_auto_detect: true, registry: SchemaRegistry::new() }
    }

    /// The decoder with a fixed number of spaces to a level, at least one.
    pub fn with_indent(self, indent: usize) -> (r: Decoder)
        ensures
            r@ == (Setting {
                indent: if indent == 0 {
                    1
                } else {
                    indent as nat
                },
                auto: false,
                known: self@.known,
            }),
    {
        let fixed: usize = if indent == 0 {
            1
        } else {
            indent
        };
        Decoder { indent: fixed, indent_auto_detect: false, registry: self.registry }
    }

    /// The value that a document holds. Definitions that stand in it are known
    /// from then on.
    pub fn decode(&mut self, input: &str) -> (r: Result<Value, String>)
        ensures
            (as_value(r), final(self)@) == decode_step(old(self)@, input@),
    {
        if !has_char(input, '\n') && has_char(input, ';') {
            return self.decode_minified(input);
        }
        if self.indent_auto_detect {
            self.indent = detect_indent(input, self.indent);
        }
        let ls = classify_lines(&mut self.registry, &line_list(input), self.indent);
        decode_document(&mut self.registry, &ls)
    }

    /// The value that a minified document holds.
    fn decode_minified(&mut self, input: &str) -> (r: Result<Value, String>)
        requires
            is_minified(input@),
        ensures
            (as_value(r), final(self)@) == decode_step(old(self)@, input@),
    {
        let g = split_segments(input);
        proof {
            lemma_text_total(input@);
        }
        let ls = classify_segments(&mut self.registry, &g);
        decode_document(&mut self.registry, &ls)
    }

    /// The byte offset of the colon behind the key that `s` begins with.
    pub fn find_key_colon(&self, s: &str) -> (r: Option<usize>)
        ensures
            as_position(r) == found_at(s@, key_colon(s@)),
    {
        match find_colon(&chars_of(s)) {
            Some(k) => Some(offset_of(s, k)),
            None => None,
        }
    }

    /// The byte offset of the first quote behind byte `start` that no backslash
    /// escapes.
    pub fn find_closing_quote(&self, s: &str, start: usize) -> (r: Option<usize>)
        requires
            start < usize::MAX,
        ensures
            as_position(r) == found_at(s@, quote_close(s@, char_from(s@, start + 1, 0))),
    {
        let from: usize = first_char_from(s, start + 1);
        match find_quote_close(&chars_of(s), from) {
            Some(k) => Some(offset_of(s, k)),
            None => None,
        }
    }

    /// What stands between the first braces that match.
    pub fn extract_brace_content<'a>(&self, input: &'a str) -> (r: Option<&'a str>)
        ensures
            match r {
                Some(x) => brace_content(input@) == Some(x@),
                None => brace_content(input@) is None,
            },
    {
        match find_brace_span(&chars_of(input)) {
            Some((a, b)) => Some(part(input, a + 1, b)),
            None => None,
        }
    }

    /// The byte offset of the bracket that closes the first one that opens from
    /// byte `start` on.
    pub fn find_matching_bracket(&self, s: &str, start: usize) -> (r: Option<usize>)
        ensures
            as_position(r) == found_at(
                s@,
                bracket_close(s@, char_from(s@, start as int, 0), outside()),
            ),
    {
        let from: usize = first_char_from(s, start);
        match find_bracket_close(&chars_of(s), from) {
            Some(k) => Some(offset_of(s, k)),
            None => None,
        }
    }

    /// The pieces of `input` between the delimiters that stand outside of
    /// quotes, braces and brackets.
    pub fn split_top_level<'a>(&self, input: &'a str, delimiter: char) -> (r: Vec<&'a str>)
        ensures
            texts(r@) == pieces_at(input@, splitter(delimiter)),
    {
        let low: u32 = delimiter as u32 % 256;
        if low < 128 {
            split_pieces(input, low as u8 as char)
        } else {
            let mut r: Vec<&'a str> = Vec::new();
            if !input.is_empty() {
                r.push(input);
            }
            assert(texts(r@) =~= pieces_at(input@, None));
            r
        }
    }

    /// Takes in the definition `line`: behind the prefix and one more byte stand
    /// the name and the definition.
    pub fn parse_schema_def(&mut self, line: &str, prefix: &str)
        requires
            is_char_boundary(encode_utf8(line@), encode_utf8(prefix@).len() as int + 1),
        ensures
            final(self)@ == (Setting {
                known: define_body(
                    old(self)@.known,
                    text_from(line@, encode_utf8(prefix@).len() as int + 1),
                    kind_of(prefix@),
                ),
                ..old(self)@
            }),
    {
        let skip: usize = prefix.as_bytes().len();
        let total: usize = line.as_bytes().len();
        proof {
            encode_utf8_valid_utf8(line@);
            lemma_boundary_within(line@, skip + 1);
        }
        let after = behind_bytes(line, skip + 1);
        take_body(&mut self.registry, after, DefType::from_prefix(prefix));
    }

    /// What the reference `ref_str` stands for.
    pub fn resolve_reference(&mut self, ref_str: &str) -> (r: Value)
        ensures
            (r@, final(self)@.known.open) == reference(
                old(self)@.known.stores,
                old(self)@.known.open,
                ref_str@,
            ),
            final(self)@ == (Setting {
                known: Known { open: final(self)@.known.open, ..old(self)@.known },
                ..old(self)@
            }),
    {
        parse_reference(&mut self.registry, ref_str)
    }
}

/// A character boundary is no later than the end.
proof fn lemma_boundary_within(s: Text, b: int)
    requires
        is_char_boundary(encode_utf8(s), b),
    ensures
        b <= encode_utf8(s).len(),
{
    encode_utf8_valid_utf8(s);
    reveal_with_fuel(is_char_boundary, 1);
}

/// The value that the lines of a document stand for.
fn decode_document(reg: &mut SchemaRegistry, ls: &Vec<ParsedLine>) -> (r: Result<Value, String>)
    ensures
        came_to(
            document(old(reg).stores(), old(reg).open(), line_views(ls@)),
            as_value(r),
            *old(reg),
            *final(reg),
        ),
{
    if ls.len() > 0 {
        assert(line_views(ls@)[0] == ls@[0]@);
    }
    if ls.len() == 0 || (ls.len() == 1 && same_text(ls[0].content, "{}")) {
        let none: SconMap = SconMap::new();
        assert(none@ =~= seq![]);
        return Ok(Value::Object(none));
    }
    if let Some(header) = try_array_header(ls[0].content) {
        if header.key.is_none() {
            return match decode_array_from_header(reg, 0, ls[0].depth, ls, &header) {
                Ok((v, _)) => Ok(v),
                Err(m) => Err(m),
            };
        }
    }
    if ls.len() == 1 && !holds_colon(ls[0].content) {
        return Ok(parse_primitive(reg, ls[0].content));
    }
    match decode_object(reg, 0, ls, 0) {
        Ok((o, _)) => Ok(Value::Object(o)),
        Err(m) => Err(m),
    }
}

} // verus!
