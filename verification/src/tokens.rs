//! Values that stand on one line: primitives, references, and arrays and
//! objects in brackets and braces.

use vstd::prelude::*;
use crate::number::{number_of, parse_number, Num, Parsed};
use crate::scan::{
    brace_content, bracket_close, cut_pieces, find_brace_span, find_bracket_close, find_colon,
    find_piece_end, find_quote_close, key_colon, lemma_brace_span, lemma_bracket_close,
    lemma_key_colon, lemma_piece_end, lemma_pieces, outside, pieces, quote_close, unescape,
    unescape_part,
};
use crate::schema_registry::{kind_of, resolved, resolved_over, DefType, SchemaRegistry, Stores};
use crate::text::{
    begins, chars_of, find, find_text, lemma_find_from, lemma_trim_len, owned, part, position,
    same_text, split_text, starts_with, text_pieces, text_position, texts, trim, trim_end, trimmed,
    trimmed_end, Text,
};
use crate::value::{compact, models, put, Entries, SconMap, Val, Value};

verus! {

// ---------------------------------------------------------------------------
// What a token stands for

/// Whether `t` is a reference to a definition.
pub open spec fn is_reference(t: Text) -> bool {
    starts_with(t, "@s:"@) || starts_with(t, "@r:"@) || starts_with(t, "@sec:"@)
}

/// The kind and the name that a reference speaks of.
pub open spec fn reference_parts(t: Text) -> Option<(DefType, Text)> {
    let u = trim(t);
    if u.len() > 0 && u[0] == '@' {
        let rest = u.subrange(1, u.len() as int);
        match find(rest, ':') {
            Some(k) => match kind_of(rest.subrange(0, k)) {
                Some(d) => Some((d, trim(rest.subrange(k + 1, rest.len() as int)))),
                None => None,
            },
            None => None,
        }
    } else {
        None
    }
}

/// A key without the quotes around it.
pub open spec fn unquoted(t: Text) -> Text {
    let u = trim(t);
    if u.len() >= 2 && u[0] == '"' && u.last() == '"' {
        unescape(u.subrange(1, u.len() - 1))
    } else {
        u
    }
}

/// The alternatives among `parts` from `i` on that can be resolved, behind
/// `done`.
pub open spec fn choices(
    s: Stores,
    open: Seq<Text>,
    parts: Seq<Text>,
    i: int,
    done: Seq<Val>,
) -> (Seq<Val>, Seq<Text>)
    decreases parts.len() - i,
{
    if 0 <= i < parts.len() {
        match reference_parts(parts[i]) {
            Some((d, name)) => match resolved(s, open, d, name) {
                Ok(v) => choices(s, open, parts, i + 1, done.push(v)),
                Err(_) => choices(s, open, parts, i + 1, done),
            },
            None => choices(s, open, parts, i + 1, done),
        }
    } else {
        (done, open)
    }
}

/// What stands before the overrides of a reference.
pub open spec fn reference_head(t: Text) -> Text {
    match find(t, '{') {
        Some(b) => trim_end(t.subrange(0, b)),
        None => trim_end(t),
    }
}

/// What a reference stands for, and the references that are being resolved
/// behind it. One that cannot be resolved stands for its text.
pub open spec fn reference(s: Stores, open: Seq<Text>, t: Text) -> (Val, Seq<Text>)
    decreases t.len(), 1nat, 0nat,
{
    if find_text(t, " | "@, 0) is Some {
        let (all, left) = choices(s, open, split_text(t, " | "@), 0, seq![]);
        (Val::Object(seq![("oneOf"@, Val::Array(all))]), left)
    } else {
        match reference_parts(reference_head(t)) {
            Some((d, name)) => match find(t, '{') {
                Some(b) => {
                    proof {
                        lemma_reference_head(t);
                    }
                    let (over, then) = inline_value(s, open, t.subrange(b, t.len() as int));
                    match resolved_over(s, then, d, name, over) {
                        Ok(v) => (v, then),
                        Err(_) => (Val::Str(t), then),
                    }
                },
                None => match resolved(s, open, d, name) {
                    Ok(v) => (v, open),
                    Err(_) => (Val::Str(t), open),
                },
            },
            None => (Val::Str(t), open),
        }
    }
}

/// What a primitive stands for.
pub open spec fn primitive(s: Stores, open: Seq<Text>, token: Text) -> (Val, Seq<Text>)
    decreases token.len(), 2nat, 0nat,
{
    let t = trim(token);
    if t.len() == 0 {
        (Val::Str(seq![]), open)
    } else if t == "[]"@ {
        (Val::Array(seq![]), open)
    } else if t == "{}"@ {
        (Val::Object(seq![]), open)
    } else if is_reference(t) {
        proof {
            lemma_trim_len(token);
        }
        reference(s, open, t)
    } else {
        (plain_token(t), open)
    }
}

/// What a token that is no reference stands for: a string in quotes, a truth
/// value, `null`, a number, or the string that it is.
pub open spec fn plain_token(t: Text) -> Val {
    if t[0] == '"' && quote_close(t, 1) is Some {
        Val::Str(unescape(t.subrange(1, quote_close(t, 1)->0)))
    } else if t == "true"@ {
        Val::Bool(true)
    } else if t == "false"@ {
        Val::Bool(false)
    } else if t == "null"@ {
        Val::Null
    } else {
        match number_of(t) {
            Num::Whole(n) => Val::Integer(n),
            Num::Decimal(d) => Val::Float(d),
            Num::Other => Val::Str(t),
        }
    }
}

/// What the pieces of `x` from the `i`-th on stand for, behind `done`.
pub open spec fn delimited(
    s: Stores,
    open: Seq<Text>,
    x: Text,
    d: char,
    i: int,
    done: Seq<Val>,
) -> (Seq<Val>, Seq<Text>)
    decreases x.len(), 3nat, pieces(x, d).len() - i,
{
    if 0 <= i < pieces(x, d).len() {
        proof {
            lemma_pieces(x, d);
        }
        let (v, then) = primitive(s, open, pieces(x, d)[i]);
        delimited(s, then, x, d, i + 1, done.push(v))
    } else {
        (done, open)
    }
}

/// What a value on one line stands for.
pub open spec fn inline_value(s: Stores, open: Seq<Text>, input: Text) -> (Val, Seq<Text>)
    decreases input.len(), 4nat, 0nat,
{
    proof {
        lemma_trim_len(input);
        lemma_brace_span(trim(input), 0, outside(), 0);
        lemma_bracket_close(trim(input), 0, outside());
    }
    let t = trim(input);
    if t.len() > 0 && t[0] == '{' && brace_content(t) is Some {
        let (o, left) = inline_entries(s, open, brace_content(t)->0, 0, seq![]);
        (Val::Object(o), left)
    } else if t.len() > 0 && t[0] == '[' && bracket_close(t, 0, outside()) is Some {
        let (a, left) = delimited(
            s,
            open,
            t.subrange(1, bracket_close(t, 0, outside())->0),
            ',',
            0,
            seq![],
        );
        (Val::Array(a), left)
    } else {
        primitive(s, open, t)
    }
}

/// The entries that the pieces of `x` from the `i`-th on stand for, behind
/// `done`. A piece without a colon stands for none.
pub open spec fn inline_entries(
    s: Stores,
    open: Seq<Text>,
    x: Text,
    i: int,
    done: Entries,
) -> (Entries, Seq<Text>)
    decreases x.len(), 5nat, pieces(x, ',').len() - i,
{
    if 0 <= i < pieces(x, ',').len() {
        proof {
            lemma_pieces(x, ',');
            lemma_trim_len(pieces(x, ',')[i]);
            lemma_key_colon(trim(pieces(x, ',')[i]));
        }
        let p = trim(pieces(x, ',')[i]);
        match key_colon(p) {
            Some(k) => {
                let (v, then) = inline_value(s, open, p.subrange(k + 1, p.len() as int));
                inline_entries(s, then, x, i + 1, put(done, unquoted(p.subrange(0, k)), v))
            },
            None => inline_entries(s, open, x, i + 1, done),
        }
    } else {
        (done, open)
    }
}

/// The overrides of a reference do not begin where it begins.
pub proof fn lemma_reference_head(t: Text)
    requires
        reference_parts(reference_head(t)) is Some,
    ensures
        find(t, '{') matches Some(b) ==> 0 < b < t.len(),
{
    lemma_find_from(t, '{', 0);
    if let Some(b) = find(t, '{') {
        lemma_trim_len(t.subrange(0, b));
        lemma_trim_len(reference_head(t));
    }
}

// ---------------------------------------------------------------------------
// Reading tokens

/// The kind and the name that a reference speaks of.
pub(crate) fn parse_ref_token<'a>(token: &'a str) -> (r: Option<(DefType, &'a str)>)
    ensures
        match r {
            Some((d, name)) => reference_parts(token@) == Some((d, name@)),
            None => reference_parts(token@) is None,
        },
{
    let u = trimmed(token);
    let cs = chars_of(u);
    let n: usize = cs.len();
    if n == 0 || cs[0] != '@' {
        return None;
    }
    let rest = part(u, 1, n);
    let rs = chars_of(rest);
    match position(&rs, ':') {
        Some(k) => match DefType::from_prefix(part(rest, 0, k)) {
            Some(d) => Some((d, trimmed(part(rest, k + 1, n - 1)))),
            None => None,
        },
        None => None,
    }
}

/// A key without the quotes around it.
pub(crate) fn unquote(s: &str) -> (r: String)
    ensures
        r@ == unquoted(s@),
{
    let u = trimmed(s);
    let cs = chars_of(u);
    let n: usize = cs.len();
    if n >= 2 && cs[0] == '"' && cs[n - 1] == '"' {
        unescape_part(&cs, 1, n - 1)
    } else {
        owned(u)
    }
}

/// The pieces of a text between the delimiters.
pub(crate) fn split_pieces<'a>(x: &'a str, d: char) -> (r: Vec<&'a str>)
    ensures
        texts(r@) == pieces(x@, d),
{
    let mut r: Vec<&'a str> = Vec::new();
    if x.is_empty() {
        assert(texts(r@) =~= pieces(x@, d));
        return r;
    }
    let cs = chars_of(x);
    let n: usize = cs.len();
    let mut from: usize = 0;
    assert(x@.subrange(0, n as int) =~= x@);
    assert(texts(r@) + cut_pieces(x@, d) =~= cut_pieces(x@, d));
    loop
        invariant_except_break
            from <= n == cs@.len(),
            cs@ == x@,
            cut_pieces(x@, d) == texts(r@) + cut_pieces(x@.subrange(from as int, n as int), d),
        ensures
            cut_pieces(x@, d) == texts(r@),
        decreases n - from,
    {
        let ghost rest = x@.subrange(from as int, n as int);
        let ghost before = r@;
        let e: usize = find_piece_end(&cs, from, d);
        let piece = part(x, from, e);
        r.push(piece);
        assert(texts(r@) =~= texts(before) + seq![piece@]);
        if e == n {
            assert(piece@ =~= rest);
            break;
        }
        proof {
            lemma_piece_end(rest, d, 0, outside());
            assert(piece@ =~= rest.subrange(0, e - from));
            assert(rest.subrange(e - from + 1, rest.len() as int) =~= x@.subrange(e + 1, n as int));
            assert(texts(before) + (seq![piece@] + cut_pieces(x@.subrange(e + 1, n as int), d))
                =~= texts(r@) + cut_pieces(x@.subrange(e + 1, n as int), d));
        }
        from = e + 1;
    }
    r
}

/// Whether a token is a reference to a definition.
pub(crate) fn token_is_reference(t: &str) -> (r: bool)
    ensures
        r == is_reference(t@),
{
    begins(t, "@s:") || begins(t, "@r:") || begins(t, "@sec:")
}

/// What a token that is no reference stands for.
fn parse_plain(t: &str) -> (r: Value)
    requires
        t@.len() > 0,
    ensures
        r@ == plain_token(t@),
{
    let cs = chars_of(t);
    if cs[0] == '"' {
        match find_quote_close(&cs, 1) {
            Some(k) => {
                return Value::String(compact(unescape_part(&cs, 1, k).as_str()));
            },
            None => {},
        }
    }
    if same_text(t, "true") {
        return Value::Bool(true);
    }
    if same_text(t, "false") {
        return Value::Bool(false);
    }
    if same_text(t, "null") {
        return Value::Null;
    }
    match parse_number(&cs) {
        Parsed::Whole(n) => Value::Integer(n),
        Parsed::Decimal(f) => Value::Float(f),
        Parsed::Other => Value::String(compact(t)),
    }
}

/// Whether reading came to `want`: the value, the definitions as they were, and
/// the references that are being resolved.
pub open spec fn read_to(want: (Val, Seq<Text>), v: Val, before: SchemaRegistry, after: SchemaRegistry) -> bool {
    v == want.0 && after.stores() == before.stores() && after.open() == want.1
}

/// What a reference stands for.
pub(crate) fn parse_reference(reg: &mut SchemaRegistry, t: &str) -> (r: Value)
    ensures
        read_to(reference(old(reg).stores(), old(reg).open(), t@), r@, *old(reg), *final(reg)),
    decreases t@.len(), 1nat, 0nat,
{
    let cs = chars_of(t);
    let n: usize = cs.len();
    proof {
        reveal_strlit(" | ");
    }
    if text_position(&cs, &chars_of(" | ")).is_some() {
        let parts = text_pieces(t, " | ");
        let mut all: Vec<Value> = Vec::new();
        let mut i: usize = 0;
        let ghost s = reg.stores();
        let ghost want = choices(s, reg.open(), texts(parts@), 0, seq![]);
        while i < parts.len()
            invariant
                i <= parts@.len(),
                reg.stores() == s,
                want == choices(s, reg.open(), texts(parts@), i as int, models(all@)),
            decreases parts@.len() - i,
        {
            if let Some((d, name)) = parse_ref_token(parts[i]) {
                match reg.resolve(d, name) {
                    Ok(v) => {
                        let ghost before = all@;
                        all.push(v);
                        assert(all@.drop_last() =~= before);
                    },
                    Err(_) => {},
                }
            }
            i += 1;
        }
        let mut result: SconMap = SconMap::new();
        result.insert(compact("oneOf"), Value::Array(all));
        assert(result@ =~= seq![("oneOf"@, Val::Array(models(all@)))]);
        return Value::Object(result);
    }
    match position(&cs, '{') {
        Some(b) => {
            let head = trimmed_end(part(t, 0, b));
            match parse_ref_token(head) {
                Some((d, name)) => {
                    proof {
                        lemma_reference_head(t@);
                    }
                    let over = parse_inline_value(reg, part(t, b, n));
                    match reg.resolve_with_override(d, name, &over) {
                        Ok(v) => v,
                        Err(_) => Value::String(compact(t)),
                    }
                },
                None => Value::String(compact(t)),
            }
        },
        None => {
            let head = trimmed_end(t);
            match parse_ref_token(head) {
                Some((d, name)) => match reg.resolve(d, name) {
                    Ok(v) => v,
                    Err(_) => Value::String(compact(t)),
                },
                None => Value::String(compact(t)),
            }
        },
    }
}

/// What a primitive stands for.
pub(crate) fn parse_primitive(reg: &mut SchemaRegistry, token: &str) -> (r: Value)
    ensures
        read_to(primitive(old(reg).stores(), old(reg).open(), token@), r@, *old(reg), *final(reg)),
    decreases token@.len(), 2nat, 0nat,
{
    let t = trimmed(token);
    proof {
        lemma_trim_len(token@);
    }
    if t.is_empty() {
        proof {
            reveal_strlit("");
        }
        let r = Value::String(compact(""));
        assert(r@ == Val::Str(seq![]));
        return r;
    }
    if same_text(t, "[]") {
        let none: Vec<Value> = Vec::new();
        return Value::Array(none);
    }
    if same_text(t, "{}") {
        let none: SconMap = SconMap::new();
        assert(none@ =~= seq![]);
        return Value::Object(none);
    }
    if token_is_reference(t) {
        return parse_reference(reg, t);
    }
    parse_plain(t)
}

/// What the pieces of a text stand for.
pub(crate) fn parse_delimited_values(reg: &mut SchemaRegistry, x: &str, d: char) -> (r: Vec<Value>)
    ensures
        delimited(old(reg).stores(), old(reg).open(), x@, d, 0, seq![]) == (
            models(r@),
            final(reg).open(),
        ),
        final(reg).stores() == old(reg).stores(),
    decreases x@.len(), 3nat, 0nat,
{
    let parts = split_pieces(x, d);
    let mut all: Vec<Value> = Vec::new();
    let mut i: usize = 0;
    let ghost s = reg.stores();
    let ghost want = delimited(s, reg.open(), x@, d, 0, seq![]);
    proof {
        lemma_pieces(x@, d);
    }
    while i < parts.len()
        invariant
            i <= parts@.len(),
            reg.stores() == s,
            texts(parts@) == pieces(x@, d),
            forall|j: int| 0 <= j < pieces(x@, d).len() ==> (#[trigger] pieces(x@, d)[j]).len() <= x@.len(),
            want == delimited(s, reg.open(), x@, d, i as int, models(all@)),
        decreases parts@.len() - i,
    {
        assert(texts(parts@)[i as int] == pieces(x@, d)[i as int]);
        let v = parse_primitive(reg, parts[i]);
        let ghost before = all@;
        all.push(v);
        assert(all@.drop_last() =~= before);
        i += 1;
    }
    all
}

/// What a value on one line stands for.
pub(crate) fn parse_inline_value(reg: &mut SchemaRegistry, input: &str) -> (r: Value)
    ensures
        read_to(inline_value(old(reg).stores(), old(reg).open(), input@), r@, *old(reg), *final(reg)),
    decreases input@.len(), 4nat, 0nat,
{
    let t = trimmed(input);
    proof {
        lemma_trim_len(input@);
    }
    let cs = chars_of(t);
    if cs.len() > 0 && cs[0] == '{' {
        match find_brace_span(&cs) {
            Some((a, b)) => {
                return Value::Object(parse_inline_object(reg, part(t, a + 1, b)));
            },
            None => {},
        }
    }
    if cs.len() > 0 && cs[0] == '[' {
        match find_bracket_close(&cs, 0) {
            Some(k) => {
                return Value::Array(parse_delimited_values(reg, part(t, 1, k), ','));
            },
            None => {},
        }
    }
    parse_primitive(reg, t)
}

/// The entries that the pieces of a text stand for.
pub(crate) fn parse_inline_object(reg: &mut SchemaRegistry, x: &str) -> (r: SconMap)
    ensures
        inline_entries(old(reg).stores(), old(reg).open(), x@, 0, seq![]) == (
            r@,
            final(reg).open(),
        ),
        final(reg).stores() == old(reg).stores(),
    decreases x@.len(), 5nat, 0nat,
{
    let parts = split_pieces(x, ',');
    let mut result: SconMap = SconMap::new();
    let mut i: usize = 0;
    let ghost s = reg.stores();
    let ghost want = inline_entries(s, reg.open(), x@, 0, seq![]);
    assert(result@ =~= seq![]);
    proof {
        lemma_pieces(x@, ',');
    }
    while i < parts.len()
        invariant
            i <= parts@.len(),
            reg.stores() == s,
            texts(parts@) == pieces(x@, ','),
            forall|j: int| 0 <= j < pieces(x@, ',').len() ==> (#[trigger] pieces(x@, ',')[j]).len() <= x@.len(),
            want == inline_entries(s, reg.open(), x@, i as int, result@),
        decreases parts@.len() - i,
    {
        assert(texts(parts@)[i as int] == pieces(x@, ',')[i as int]);
        proof {
            lemma_trim_len(parts@[i as int]@);
        }
        let p = trimmed(parts[i]);
        let ps = chars_of(p);
        let n: usize = ps.len();
        if let Some(k) = find_colon(&ps) {
            let key = unquote(part(p, 0, k));
            let v = parse_inline_value(reg, part(p, k + 1, n));
            result.insert(compact(key.as_str()), v);
        }
        i += 1;
    }
    result
}

} // verus!
