//! The lines of a document: their depth, the definitions among them, and the
//! headers of arrays.

use vstd::prelude::*;
use crate::number::{length_of, parse_length};
use crate::scan::{
    behind_quotes, cell_end, find_behind_quotes, find_cell_end, find_colon, key_colon,
    lemma_cell_bounds, outside, pieces, step, unescape, unescape_part, Cursor, Place,
};
use crate::schema_registry::{defined, prefix_of, string_texts, DefType, SchemaRegistry, Stores};
use crate::text::{
    begins, char_is_space, chars_of, ends, ends_with, find, find_from, indentation, indentation_of,
    is_space, last_position, lemma_find_from, lemma_trim_len, line_list, lines, owned, part,
    position, position_from, rfind, starts_with, texts, trim, trimmed, Text,
};
use crate::tokens::{inline_value, parse_inline_value, split_pieces};
use crate::value::{SconMap, Val, Value};

verus! {

// ---------------------------------------------------------------------------
// Array headers

/// What the header of an array says: `key[length]{fields}: values`. The key and
/// the fields are also there with their escapes, as `raw` and `raw_fields`.
pub struct Header {
    pub key: Option<Text>,
    pub raw: Option<Text>,
    pub length: nat,
    pub delimiter: char,
    pub fields: Option<Seq<Text>>,
    pub raw_fields: Option<Seq<Text>>,
    pub inline: Option<Text>,
}

/// Whether quotes stand around a text.
pub open spec fn in_quotes(u: Text) -> bool {
    u.len() >= 2 && u[0] == '"' && u.last() == '"'
}

/// A key without the quotes around it; what is between them stays as it is.
pub open spec fn bare_key(raw: Text) -> Text {
    let u = trim(raw);
    if in_quotes(u) {
        u.subrange(1, u.len() - 1)
    } else {
        u
    }
}

/// A key without the quotes around it and without the escapes between them.
pub open spec fn key_name(raw: Text) -> Text {
    let u = trim(raw);
    if in_quotes(u) {
        unescape(u.subrange(1, u.len() - 1))
    } else {
        u
    }
}

/// Keys without quotes and escapes.
pub open spec fn key_names(s: Seq<Text>) -> Seq<Text> {
    Seq::new(s.len(), |i: int| key_name(s[i]))
}

/// Keys without quotes; their escapes stay.
pub open spec fn bare_keys(s: Seq<Text>) -> Seq<Text> {
    Seq::new(s.len(), |i: int| bare_key(s[i]))
}

/// The delimiter that the text in the brackets asks for.
pub open spec fn header_delimiter(body: Text) -> char {
    if body.len() > 0 && body.last() == '\t' {
        '\t'
    } else if body.len() > 0 && body.last() == '|' {
        '|'
    } else {
        ','
    }
}

/// The length that the text in the brackets asks for.
pub open spec fn header_length(body: Text) -> nat {
    let digits = if header_delimiter(body) == ',' {
        body
    } else {
        body.drop_last()
    };
    match length_of(digits) {
        Some(n) => n,
        None => 0,
    }
}

/// Where the fields in braces end: at the first closing brace outside of quotes,
/// or else at the first one.
pub open spec fn fields_end(after: Text) -> Option<int> {
    let inner = after.subrange(1, after.len() as int);
    let z = cell_end(inner, '}', 0, outside());
    if z < inner.len() {
        Some(z + 1)
    } else {
        find(after, '}')
    }
}

/// The fields in braces behind the brackets, as they are written.
pub open spec fn header_fields(after: Text, d: char) -> Option<Seq<Text>> {
    if after.len() > 0 && after[0] == '{' {
        match fields_end(after) {
            Some(z) => Some(pieces(after.subrange(1, z), d)),
            None => None,
        }
    } else {
        None
    }
}

/// The length of the fields in braces behind the brackets.
pub open spec fn fields_len(after: Text) -> int {
    if after.len() > 0 && after[0] == '{' {
        match fields_end(after) {
            Some(z) => z + 1,
            None => 0,
        }
    } else {
        0
    }
}

/// The colon behind a header that ends at `from`: the first one there, or else
/// the last one.
pub open spec fn header_colon(c: Text, from: int) -> Option<int> {
    match find_from(c, ':', from) {
        Some(k) => Some(k),
        None => rfind(c, ':'),
    }
}

/// The values behind the colon of a header that ends at `from`.
pub open spec fn header_inline(c: Text, from: int) -> Option<Text> {
    match header_colon(c, from) {
        Some(k) => {
            let rest = trim(c.subrange(k + 1, c.len() as int));
            if rest.len() > 0 {
                Some(rest)
            } else {
                None
            }
        },
        None => None,
    }
}

/// The header that `c` is, where it is one: behind a key in quotes or from the
/// start on a bracket opens before the first colon, and one closes behind it.
#[verifier::opaque]
pub open spec fn array_header(c: Text) -> Option<Header> {
    let q = behind_quotes(c);
    match (find_from(c, '[', q), find_from(c, ':', q)) {
        (Some(b), Some(k)) => if b < k {
            match find_from(c, ']', b) {
                Some(e) => Some(header_at(c, b, e)),
                None => None,
            }
        } else {
            None
        },
        _ => None,
    }
}

/// The header that `c` is, with brackets at `b` and `e`.
pub open spec fn header_at(c: Text, b: int, e: int) -> Header {
    let body = c.subrange(b + 1, e);
    let d = header_delimiter(body);
    let after = c.subrange(e + 1, c.len() as int);
    let fields = header_fields(after, d);
    Header {
        key: if b > 0 {
            Some(key_name(c.subrange(0, b)))
        } else {
            None
        },
        raw: if b > 0 {
            Some(bare_key(c.subrange(0, b)))
        } else {
            None
        },
        length: header_length(body),
        delimiter: d,
        fields: match fields {
            Some(f) => Some(key_names(f)),
            None => None,
        },
        raw_fields: match fields {
            Some(f) => Some(bare_keys(f)),
            None => None,
        },
        inline: header_inline(c, e + 1 + fields_len(after)),
    }
}

/// What the header of an array says: the key and the fields as they are written.
pub struct ArrayHeader<'a> {
    pub key: Option<&'a str>,
    pub length: usize,
    pub delimiter: char,
    pub fields: Option<Vec<&'a str>>,
    pub inline_values: Option<&'a str>,
}

/// The text of an optional string.
pub open spec fn opt_text(o: Option<&str>) -> Option<Text> {
    match o {
        Some(s) => Some(s@),
        None => None,
    }
}

impl<'a> View for ArrayHeader<'a> {
    type V = Header;

    open spec fn view(&self) -> Header {
        Header {
            key: match self.key {
                Some(k) => Some(key_name(k@)),
                None => None,
            },
            raw: match self.key {
                Some(k) => Some(bare_key(k@)),
                None => None,
            },
            length: self.length as nat,
            delimiter: self.delimiter,
            fields: match self.fields {
                Some(f) => Some(key_names(texts(f@))),
                None => None,
            },
            raw_fields: match self.fields {
                Some(f) => Some(bare_keys(texts(f@))),
                None => None,
            },
            inline: opt_text(self.inline_values),
        }
    }
}

/// A key without the quotes around it.
pub(crate) fn strip_quotes<'a>(raw: &'a str) -> (r: &'a str)
    ensures
        r@ == bare_key(raw@),
{
    let u = trimmed(raw);
    let cs = chars_of(u);
    let n: usize = cs.len();
    if n >= 2 && cs[0] == '"' && cs[n - 1] == '"' {
        part(u, 1, n - 1)
    } else {
        u
    }
}

/// Keys without the quotes around them.
pub(crate) fn strip_all<'a>(raw: &Vec<&'a str>) -> (r: Vec<&'a str>)
    ensures
        texts(r@) == bare_keys(texts(raw@)),
{
    let mut out: Vec<&'a str> = Vec::new();
    let mut i: usize = 0;
    let ghost all = bare_keys(texts(raw@));
    while i < raw.len()
        invariant
            i <= raw@.len(),
            all == bare_keys(texts(raw@)),
            texts(out@) == all.subrange(0, i as int),
        decreases raw@.len() - i,
    {
        let ghost before = out@;
        let name = strip_quotes(raw[i]);
        out.push(name);
        assert(texts(out@) =~= texts(before).push(name@));
        assert(all.subrange(0, i + 1) =~= all.subrange(0, i as int).push(name@));
        i += 1;
    }
    assert(all.subrange(0, i as int) =~= all);
    out
}

/// A key without the quotes around it and without the escapes between them.
pub(crate) fn unquote(raw: &str) -> (r: String)
    ensures
        r@ == key_name(raw@),
{
    let u = trimmed(raw);
    let cs = chars_of(u);
    let n: usize = cs.len();
    if n >= 2 && cs[0] == '"' && cs[n - 1] == '"' {
        unescape_part(&cs, 1, n - 1)
    } else {
        owned(u)
    }
}

/// Keys without the quotes around them and without the escapes between them.
pub(crate) fn unquote_all(raw: &Vec<&str>) -> (r: Vec<String>)
    ensures
        string_texts(r@) == key_names(texts(raw@)),
{
    let mut out: Vec<String> = Vec::new();
    let mut i: usize = 0;
    let ghost all = key_names(texts(raw@));
    while i < raw.len()
        invariant
            i <= raw@.len(),
            all == key_names(texts(raw@)),
            string_texts(out@) == all.subrange(0, i as int),
        decreases raw@.len() - i,
    {
        let ghost before = out@;
        let name = unquote(raw[i]);
        out.push(name);
        assert(string_texts(out@) =~= string_texts(before).push(name@));
        assert(all.subrange(0, i + 1) =~= all.subrange(0, i as int).push(name@));
        i += 1;
    }
    assert(all.subrange(0, i as int) =~= all);
    out
}

/// The fields in braces behind the brackets, and their length.
fn parse_fields<'a>(after: &'a str, d: char) -> (r: (Option<Vec<&'a str>>, usize))
    ensures
        match r.0 {
            Some(f) => header_fields(after@, d) == Some(texts(f@)),
            None => header_fields(after@, d) is None,
        },
        r.1 == fields_len(after@),
        r.1 <= after@.len(),
{
    let cs = chars_of(after);
    let n: usize = cs.len();
    if n == 0 || cs[0] != '{' {
        return (None, 0);
    }
    let mut z: usize = find_cell_end(&cs, 1, '}');
    if z == n {
        match position(&cs, '}') {
            Some(k) => {
                z = k;
            },
            None => {
                return (None, 0);
            },
        }
    }
    proof {
        lemma_find_from(cs@, '}', 0);
        lemma_fields_end(cs@);
    }
    (Some(split_pieces(part(after, 1, z), d)), z + 1)
}

/// The brace that closes fields stands behind the one that opens them.
proof fn lemma_fields_end(after: Text)
    requires
        after.len() > 0,
        after[0] == '{',
    ensures
        fields_end(after) matches Some(z) ==> 0 < z < after.len(),
{
    lemma_find_from(after, '}', 0);
    lemma_cell_bounds(after.subrange(1, after.len() as int), '}', 0, outside());
}

/// The header that a line is, where it is one.
pub(crate) fn try_array_header<'a>(content: &'a str) -> (r: Option<ArrayHeader<'a>>)
    ensures
        match r {
            Some(h) => array_header(content@) == Some(h@),
            None => array_header(content@) is None,
        },
{
    proof {
        reveal(array_header);
    }
    let cs = chars_of(content);
    let q: usize = find_behind_quotes(&cs);
    let b: usize = match position_from(&cs, '[', q) {
        Some(b) => b,
        None => {
            return None;
        },
    };
    match position_from(&cs, ':', q) {
        Some(k) => {
            if b >= k {
                return None;
            }
        },
        None => {
            return None;
        },
    }
    match position_from(&cs, ']', b) {
        Some(e) => {
            proof {
                lemma_find_from(cs@, '[', q as int);
                lemma_find_from(cs@, ']', b as int);
            }
            Some(parse_array_header(content, &cs, b, e))
        },
        None => None,
    }
}

/// The parts of a header.
fn parse_array_header<'a>(content: &'a str, cs: &Vec<char>, b: usize, e: usize) -> (r: ArrayHeader<'a>)
    requires
        cs@ == content@,
        b < e < cs@.len(),
    ensures
        r@ == header_at(content@, b as int, e as int),
{
    let n: usize = cs.len();
    let key: Option<&'a str> = if b > 0 {
        Some(part(content, 0, b))
    } else {
        None
    };
    let body = part(content, b + 1, e);
    let bs = chars_of(body);
    let m: usize = bs.len();
    let mut delimiter: char = ',';
    let mut digits: &str = body;
    if m > 0 && bs[m - 1] == '\t' {
        delimiter = '\t';
        digits = part(body, 0, m - 1);
    } else if m > 0 && bs[m - 1] == '|' {
        delimiter = '|';
        digits = part(body, 0, m - 1);
    }
    proof {
        if m > 0 {
            assert(body@.subrange(0, m - 1) =~= body@.drop_last());
        }
    }
    let length: usize = match parse_length(digits) {
        Some(l) => l,
        None => 0,
    };
    let (fields, taken) = parse_fields(part(content, e + 1, n), delimiter);
    let from: usize = e + 1 + taken;
    let colon: Option<usize> = match position_from(cs, ':', from) {
        Some(k) => Some(k),
        None => last_position(cs, ':'),
    };
    let mut inline_values: Option<&'a str> = None;
    if let Some(k) = colon {
        let rest = trimmed(part(content, k + 1, n));
        if !rest.is_empty() {
            inline_values = Some(rest);
        }
    }
    ArrayHeader { key, length, delimiter, fields, inline_values }
}

// ---------------------------------------------------------------------------
// Lines

/// A line of a document: how deep it stands, and what it says.
pub struct Line {
    pub depth: int,
    pub text: Text,
}

/// A line of a document.
pub struct ParsedLine<'a> {
    pub depth: usize,
    pub content: &'a str,
}

impl<'a> View for ParsedLine<'a> {
    type V = Line;

    open spec fn view(&self) -> Line {
        Line { depth: self.depth as int, text: self.content@ }
    }
}

/// What the lines of a sequence are.
pub open spec fn line_views(v: Seq<ParsedLine>) -> Seq<Line> {
    Seq::new(v.len(), |i: int| v[i]@)
}

/// Whether `t` is a comment or a directive, or says nothing.
pub open spec fn is_silent(t: Text) -> bool {
    t.len() == 0 || t[0] == '#' || starts_with(t, "@@"@) || starts_with(t, "@use "@)
}

/// The kind of definition that `t` is.
pub open spec fn definition_kind(t: Text) -> Option<DefType> {
    if starts_with(t, "s:"@) {
        Some(DefType::Schema)
    } else if starts_with(t, "r:"@) {
        Some(DefType::Response)
    } else if starts_with(t, "sec:"@) {
        Some(DefType::Security)
    } else {
        None
    }
}

/// The end of the first word of `t` from `i` on.
pub open spec fn word_end(t: Text, i: int) -> int
    decreases t.len() - i,
{
    if 0 <= i < t.len() && !is_space(t[i]) {
        word_end(t, i + 1)
    } else {
        i
    }
}

/// The definitions, and the references that are being resolved.
pub struct Known {
    pub stores: Stores,
    pub open: Seq<Text>,
}

/// What is known once a `d` has been defined: `after` is the name and behind it
/// the definition. Where there is no `d`, the definition is read and dropped.
pub open spec fn define_body(k: Known, after: Text, d: Option<DefType>) -> Known {
    let body = trim(after);
    let e = word_end(body, 0);
    let name = body.subrange(0, e);
    let text = trim(body.subrange(e, body.len() as int));
    let (v, open) = if text.len() == 0 {
        (Val::Object(seq![]), k.open)
    } else {
        inline_value(k.stores, k.open, text)
    };
    match d {
        Some(d) => Known { stores: defined(k.stores, d, name, v), open },
        None => Known { open, ..k },
    }
}

/// What is known once the line `t` has defined a `d`: behind the prefix and a
/// colon stand the name and the definition.
pub open spec fn define(k: Known, t: Text, d: DefType) -> Known {
    define_body(k, t.subrange(prefix_of(d).len() as int + 1, t.len() as int), Some(d))
}

/// How deep a line with `spaces` spaces before it stands.
pub open spec fn depth_of(spaces: nat, indent: nat) -> int {
    if indent > 0 {
        spaces as int / indent as int
    } else {
        0
    }
}

/// What is known, and the lines that are left, once the lines `ls` from `i` on
/// have been read behind `done`. Definitions are taken in, silent lines are
/// left out.
pub open spec fn read_lines(
    k: Known,
    ls: Seq<Text>,
    indent: nat,
    i: int,
    done: Seq<Line>,
) -> (Known, Seq<Line>)
    decreases ls.len() - i,
{
    if 0 <= i < ls.len() {
        let t = trim(ls[i]);
        if is_silent(t) {
            read_lines(k, ls, indent, i + 1, done)
        } else {
            match definition_kind(t) {
                Some(d) => read_lines(define(k, t, d), ls, indent, i + 1, done),
                None => read_lines(
                    k,
                    ls,
                    indent,
                    i + 1,
                    done.push(Line { depth: depth_of(indentation(ls[i]), indent), text: t }),
                ),
            }
        }
    } else {
        (k, done)
    }
}

/// The number of spaces before the first line from `i` on that has some and is
/// no comment.
pub open spec fn first_indent(ls: Seq<Text>, i: int) -> Option<nat>
    decreases ls.len() - i,
{
    if 0 <= i < ls.len() {
        let t = trim(ls[i]);
        if indentation(ls[i]) > 0 && t.len() > 0 && t[0] != '#' {
            Some(indentation(ls[i]))
        } else {
            first_indent(ls, i + 1)
        }
    } else {
        None
    }
}

/// Whether `c` is an ASCII space, tab, newline, form feed or carriage return.
pub open spec fn is_blank(c: char) -> bool {
    c == ' ' || c == '\t' || c == '\n' || c == '\x0c' || c == '\r'
}

/// The number of spaces before the second line, where it has some and a
/// character behind them.
pub open spec fn second_indent(input: Text) -> Option<nat> {
    match find(input, '\n') {
        Some(k) => {
            let after = input.subrange(k + 1, input.len() as int);
            let n = indentation(after);
            if n > 0 && n < after.len() && !is_blank(after[n as int]) {
                Some(n)
            } else {
                None
            }
        },
        None => None,
    }
}

/// The number of spaces by which a document indents: those before its second
/// line, or else before the first line that has some, or else `other`.
pub open spec fn detected_indent(input: Text, other: nat) -> nat {
    match second_indent(input) {
        Some(n) => n,
        None => match first_indent(lines(input), 0) {
            Some(n) => n,
            None => other,
        },
    }
}

/// What a registry knows.
pub open spec fn known(r: SchemaRegistry) -> Known {
    Known { stores: r.stores(), open: r.open() }
}

/// Whether a line is a comment or a directive, or says nothing.
pub(crate) fn line_is_silent(t: &str) -> (r: bool)
    ensures
        r == is_silent(t@),
{
    let cs = chars_of(t);
    cs.len() == 0 || cs[0] == '#' || begins(t, "@@") || begins(t, "@use ")
}

/// The kind of definition that a line is.
pub(crate) fn line_definition(t: &str) -> (r: Option<DefType>)
    ensures
        r == definition_kind(t@),
{
    if begins(t, "s:") {
        Some(DefType::Schema)
    } else if begins(t, "r:") {
        Some(DefType::Response)
    } else if begins(t, "sec:") {
        Some(DefType::Security)
    } else {
        None
    }
}

/// Takes in a definition.
pub(crate) fn take_body(reg: &mut SchemaRegistry, after: &str, d: Option<DefType>)
    ensures
        known(*final(reg)) == define_body(known(*old(reg)), after@, d),
{
    let body = trimmed(after);
    let cs = chars_of(body);
    let m: usize = cs.len();
    let mut e: usize = 0;
    while e < m && !char_is_space(cs[e])
        invariant
            e <= m == cs@.len(),
            word_end(cs@, 0) == word_end(cs@, e as int),
        decreases m - e,
    {
        e += 1;
    }
    let name = part(body, 0, e);
    let text = trimmed(part(body, e, m));
    let v: Value = if text.is_empty() {
        let none: SconMap = SconMap::new();
        assert(none@ =~= seq![]);
        Value::Object(none)
    } else {
        parse_inline_value(reg, text)
    };
    if let Some(d) = d {
        reg.register(d, name, v);
    }
}

/// Takes in the definition that a line is.
pub(crate) fn take_definition(reg: &mut SchemaRegistry, t: &str, d: DefType)
    requires
        prefix_of(d).len() + 1 <= t@.len(),
    ensures
        known(*final(reg)) == define(known(*old(reg)), t@, d),
{
    let n: usize = chars_of(t).len();
    let skip: usize = chars_of(d.prefix()).len() + 1;
    take_body(reg, part(t, skip, n), Some(d));
}

/// A line that defines something is longer than its prefix and colon.
pub proof fn lemma_definition_kind(t: Text)
    ensures
        definition_kind(t) matches Some(d) ==> prefix_of(d).len() + 1 <= t.len(),
{
    reveal_strlit("s");
    reveal_strlit("r");
    reveal_strlit("sec");
    reveal_strlit("s:");
    reveal_strlit("r:");
    reveal_strlit("sec:");
}

/// The lines of a document that hold its value; definitions are taken in.
pub(crate) fn classify_lines<'a>(reg: &mut SchemaRegistry, ls: &Vec<&'a str>, indent: usize) -> (r: Vec<
    ParsedLine<'a>,
>)
    ensures
        read_lines(known(*old(reg)), texts(ls@), indent as nat, 0, seq![]) == (
            known(*final(reg)),
            line_views(r@),
        ),
{
    let mut out: Vec<ParsedLine<'a>> = Vec::new();
    let mut i: usize = 0;
    let ghost want = read_lines(known(*reg), texts(ls@), indent as nat, 0, seq![]);
    assert(line_views(out@) =~= seq![]);
    while i < ls.len()
        invariant
            i <= ls@.len(),
            want == read_lines(known(*reg), texts(ls@), indent as nat, i as int, line_views(out@)),
        decreases ls@.len() - i,
    {
        let line = ls[i];
        let t = trimmed(line);
        if !line_is_silent(t) {
            match line_definition(t) {
                Some(d) => {
                    proof {
                        lemma_definition_kind(t@);
                    }
                    take_definition(reg, t, d);
                },
                None => {
                    let spaces: usize = indentation_of(line);
                    let depth: usize = if indent > 0 {
                        spaces / indent
                    } else {
                        0
                    };
                    let ghost before = out@;
                    out.push(ParsedLine { depth, content: t });
                    assert(line_views(out@) =~= line_views(before).push(
                        Line { depth: depth as int, text: t@ },
                    ));
                },
            }
        }
        i += 1;
    }
    out
}

/// The number of spaces by which a document indents.
pub(crate) fn detect_indent(input: &str, other: usize) -> (r: usize)
    ensures
        r == detected_indent(input@, other as nat),
{
    let cs = chars_of(input);
    let n: usize = cs.len();
    if let Some(k) = position(&cs, '\n') {
        let after = part(input, k + 1, n);
        let spaces: usize = indentation_of(after);
        let m: usize = n - k - 1;
        if spaces > 0 && spaces < m {
            let c: char = cs[k + 1 + spaces];
            assert(c == after@[spaces as int]);
            if !(c == ' ' || c == '\t' || c == '\n' || c == '\x0c' || c == '\r') {
                return spaces;
            }
        }
    }
    match find_first_indent(&line_list(input)) {
        Some(n) => n,
        None => other,
    }
}

/// The number of spaces before the first line that has some.
pub(crate) fn find_first_indent(ls: &Vec<&str>) -> (r: Option<usize>)
    ensures
        match r {
            Some(n) => first_indent(texts(ls@), 0) == Some(n as nat),
            None => first_indent(texts(ls@), 0) is None,
        },
{
    let mut i: usize = 0;
    while i < ls.len()
        invariant
            i <= ls@.len(),
            first_indent(texts(ls@), 0) == first_indent(texts(ls@), i as int),
        decreases ls@.len() - i,
    {
        let spaces: usize = indentation_of(ls[i]);
        let t = chars_of(trimmed(ls[i]));
        if spaces > 0 && t.len() > 0 && t[0] != '#' {
            return Some(spaces);
        }
        i += 1;
    }
    None
}

// ---------------------------------------------------------------------------
// Segments of a minified document

/// A segment of a minified document: what it says, and how many semicolons
/// stand behind it.
pub struct Segment {
    pub text: Text,
    pub semis: nat,
}

/// The first semicolon at or after `i` outside of quotes, or the end.
pub open spec fn semi_at(s: Text, i: int, p: Place) -> int
    decreases s.len() - i,
{
    if i < 0 || i >= s.len() {
        s.len() as int
    } else if s[i] == ';' && !p.skip && !p.quoted {
        i
    } else {
        semi_at(s, i + 1, step(p, s[i]))
    }
}

/// The end of the semicolons from `i` on.
pub open spec fn semis_end(s: Text, i: int) -> int
    decreases s.len() - i,
{
    if 0 <= i < s.len() && s[i] == ';' {
        semis_end(s, i + 1)
    } else {
        i
    }
}

/// The segments of a minified document. No semicolons stand behind the last.
pub open spec fn segments(s: Text) -> Seq<Segment>
    decreases s.len(),
{
    let e = semi_at(s, 0, outside());
    proof {
        lemma_semis(s);
    }
    if e < s.len() {
        let z = semis_end(s, e);
        seq![Segment { text: trim(s.subrange(0, e)), semis: (z - e) as nat }] + segments(
            s.subrange(z, s.len() as int),
        )
    } else {
        seq![Segment { text: trim(s), semis: 0 }]
    }
}

/// The bounds of `semi_at`.
pub proof fn lemma_semi_at(s: Text, i: int, p: Place)
    requires
        0 <= i <= s.len(),
    ensures
        i <= semi_at(s, i, p) <= s.len(),
        semi_at(s, i, p) < s.len() ==> s[semi_at(s, i, p)] == ';',
    decreases s.len() - i,
{
    if i < s.len() {
        lemma_semi_at(s, i + 1, step(p, s[i]));
    }
}

/// The bounds of `semis_end`.
pub proof fn lemma_semis_end(s: Text, i: int)
    requires
        0 <= i <= s.len(),
    ensures
        i <= semis_end(s, i) <= s.len(),
        i < s.len() && s[i] == ';' ==> i < semis_end(s, i),
    decreases s.len() - i,
{
    if i < s.len() && s[i] == ';' {
        lemma_semis_end(s, i + 1);
    }
}

/// A segment and the semicolons behind it are some of the text.
pub proof fn lemma_semis(s: Text)
    ensures
        0 <= semi_at(s, 0, outside()) <= s.len(),
        semi_at(s, 0, outside()) < s.len() ==> semi_at(s, 0, outside()) < semis_end(
            s,
            semi_at(s, 0, outside()),
        ) <= s.len(),
{
    lemma_semi_at(s, 0, outside());
    lemma_semis_end(s, semi_at(s, 0, outside()));
}

/// A segment of a minified document.
pub struct ParsedSegment<'a> {
    pub content: &'a str,
    pub semis: usize,
}

impl<'a> View for ParsedSegment<'a> {
    type V = Segment;

    open spec fn view(&self) -> Segment {
        Segment { text: self.content@, semis: self.semis as nat }
    }
}

/// What the segments of a sequence are.
pub open spec fn segment_views(v: Seq<ParsedSegment>) -> Seq<Segment> {
    Seq::new(v.len(), |i: int| v[i]@)
}

/// The segments of a minified document.
pub(crate) fn split_segments<'a>(s: &'a str) -> (r: Vec<ParsedSegment<'a>>)
    ensures
        segment_views(r@) == segments(s@),
        s@.len() <= usize::MAX,
{
    let cs = chars_of(s);
    let n: usize = cs.len();
    let mut r: Vec<ParsedSegment<'a>> = Vec::new();
    let mut from: usize = 0;
    assert(s@.subrange(0, n as int) =~= s@);
    assert(segment_views(r@) + segments(s@) =~= segments(s@));
    loop
        invariant_except_break
            from <= n == cs@.len(),
            cs@ == s@,
            segments(s@) == segment_views(r@) + segments(s@.subrange(from as int, n as int)),
        ensures
            segments(s@) == segment_views(r@),
        decreases n - from,
    {
        let ghost rest = s@.subrange(from as int, n as int);
        let ghost before = r@;
        let e: usize = find_semi(&cs, from);
        let content = trimmed(part(s, from, e));
        assert(s@.subrange(from as int, e as int) =~= rest.subrange(0, e - from));
        if e == n {
            assert(rest.subrange(0, e - from) =~= rest);
            r.push(ParsedSegment { content, semis: 0 });
            assert(segment_views(r@) =~= segment_views(before) + seq![
                Segment { text: content@, semis: 0 },
            ]);
            break;
        }
        let mut z: usize = e;
        while z < n && cs[z] == ';'
            invariant
                from <= e <= z <= n == cs@.len(),
                cs@ == s@,
                rest == s@.subrange(from as int, n as int),
                semis_end(rest, e - from) == semis_end(rest, z - from),
            decreases n - z,
        {
            assert(rest[z - from] == cs@[z as int]);
            z += 1;
        }
        proof {
            lemma_semis(rest);
            if z < n {
                assert(rest[z - from] == cs@[z as int]);
            }
            assert(semis_end(rest, e - from) == z - from);
            assert(rest.subrange(z - from, rest.len() as int) =~= s@.subrange(z as int, n as int));
        }
        r.push(ParsedSegment { content, semis: z - e });
        proof {
            let g = Segment { text: content@, semis: (z - e) as nat };
            assert(segment_views(r@) =~= segment_views(before) + seq![g]);
            assert(segment_views(before) + (seq![g] + segments(s@.subrange(z as int, n as int)))
                =~= segment_views(r@) + segments(s@.subrange(z as int, n as int)));
        }
        from = z;
    }
    r
}

/// The first semicolon outside of quotes.
fn find_semi(cs: &Vec<char>, from: usize) -> (r: usize)
    requires
        from <= cs@.len(),
    ensures
        r == from + semi_at(cs@.subrange(from as int, cs@.len() as int), 0, outside()),
        from <= r <= cs@.len(),
{
    let n: usize = cs.len();
    let ghost s = cs@.subrange(from as int, n as int);
    let mut at: Cursor = Cursor::start();
    let mut i: usize = from;
    while i < n
        invariant
            from <= i <= n == cs@.len(),
            s == cs@.subrange(from as int, n as int),
            at.within(i - from),
            semi_at(s, 0, outside()) == semi_at(s, i - from, at@),
        decreases n - i,
    {
        let c: char = cs[i];
        assert(c == s[i - from]);
        if c == ';' && !at.skip && !at.quoted {
            return i;
        }
        at.read(c, Ghost(i - from));
        i += 1;
    }
    n
}

/// Whether something stands behind the colon of the key that `t` begins with.
pub open spec fn has_inline_value(t: Text) -> bool {
    match key_colon(t) {
        Some(k) => trim(t.subrange(k + 1, t.len() as int)).len() > 0,
        None => false,
    }
}

/// How much deeper the line `t` takes what follows it: a key without a value
/// opens a level, and so does a list item.
pub open spec fn levels_opened(t: Text) -> nat {
    (if ends_with(t, ":"@) && !has_inline_value(t) {
        1nat
    } else {
        0nat
    }) + (if starts_with(t, "- "@) {
        1nat
    } else {
        0nat
    })
}

/// The depth once `semis` semicolons have been read at depth `depth`: all but
/// one of them close a level.
pub open spec fn depth_behind(depth: nat, semis: nat) -> nat {
    if semis >= 2 {
        if depth >= semis - 1 {
            (depth - (semis - 1)) as nat
        } else {
            0
        }
    } else {
        depth
    }
}

/// The number of characters of the segments from `i` on.
pub open spec fn text_total(g: Seq<Segment>, i: int) -> nat
    decreases g.len() - i,
{
    if 0 <= i < g.len() {
        g[i].text.len() + text_total(g, i + 1)
    } else {
        0
    }
}

/// The segments are some of the text.
pub proof fn lemma_text_total(s: Text)
    ensures
        text_total(segments(s), 0) <= s.len(),
    decreases s.len(),
{
    let e = semi_at(s, 0, outside());
    lemma_semis(s);
    lemma_trim_len(s);
    reveal_with_fuel(text_total, 2);
    if e < s.len() {
        let z = semis_end(s, e);
        let rest = s.subrange(z, s.len() as int);
        let first = Segment { text: trim(s.subrange(0, e)), semis: (z - e) as nat };
        lemma_trim_len(s.subrange(0, e));
        lemma_text_total(rest);
        lemma_text_total_shift(first, segments(rest), 0);
    }
}

/// A segment in front only adds its own characters.
proof fn lemma_text_total_shift(first: Segment, g: Seq<Segment>, i: int)
    requires
        0 <= i,
    ensures
        text_total(seq![first] + g, i + 1) == text_total(g, i),
    decreases g.len() - i,
{
    if i < g.len() {
        lemma_text_total_shift(first, g, i + 1);
    }
}

/// A line opens no more levels than it has characters.
proof fn lemma_levels_opened(t: Text)
    ensures
        levels_opened(t) <= t.len(),
{
    reveal_strlit(":");
    reveal_strlit("- ");
}

/// What is known, and the lines, once the segments `g` from `i` on have been
/// read at depth `depth` behind `done`. The last segment has no semicolons.
pub open spec fn read_segments(
    k: Known,
    g: Seq<Segment>,
    i: int,
    depth: nat,
    done: Seq<Line>,
) -> (Known, Seq<Line>)
    decreases g.len() - i,
{
    if 0 <= i < g.len() {
        let t = g[i].text;
        if is_silent(t) {
            read_segments(k, g, i + 1, depth_behind(depth, g[i].semis), done)
        } else {
            match definition_kind(t) {
                Some(d) => read_segments(
                    define(k, t, d),
                    g,
                    i + 1,
                    depth_behind(depth, g[i].semis),
                    done,
                ),
                None => read_segments(
                    k,
                    g,
                    i + 1,
                    depth_behind(depth + levels_opened(t), g[i].semis),
                    done.push(Line { depth: depth as int, text: t }),
                ),
            }
        }
    } else {
        (k, done)
    }
}

/// How much deeper a line takes what follows it.
fn count_levels(t: &str) -> (r: usize)
    ensures
        r == levels_opened(t@),
        r <= 2,
{
    let mut r: usize = 0;
    if ends(t, ":") && !has_inline_value_after_colon(t) {
        r += 1;
    }
    if begins(t, "- ") {
        r += 1;
    }
    r
}

/// Whether something stands behind the colon of the key that a line begins
/// with.
fn has_inline_value_after_colon(t: &str) -> (r: bool)
    ensures
        r == has_inline_value(t@),
{
    let cs = chars_of(t);
    let n: usize = cs.len();
    match find_colon(&cs) {
        Some(k) => !trimmed(part(t, k + 1, n)).is_empty(),
        None => false,
    }
}

/// The lines of a minified document that hold its value; definitions are taken
/// in.
pub(crate) fn classify_segments<'a>(reg: &mut SchemaRegistry, g: &Vec<ParsedSegment<'a>>) -> (r: Vec<
    ParsedLine<'a>,
>)
    requires
        text_total(segment_views(g@), 0) <= usize::MAX,
    ensures
        read_segments(known(*old(reg)), segment_views(g@), 0, 0, seq![]) == (
            known(*final(reg)),
            line_views(r@),
        ),
{
    let mut out: Vec<ParsedLine<'a>> = Vec::new();
    let mut i: usize = 0;
    let mut depth: usize = 0;
    let ghost want = read_segments(known(*reg), segment_views(g@), 0, 0, seq![]);
    assert(line_views(out@) =~= seq![]);
    while i < g.len()
        invariant
            i <= g@.len(),
            depth + text_total(segment_views(g@), i as int) <= usize::MAX,
            want == read_segments(
                known(*reg),
                segment_views(g@),
                i as int,
                depth as nat,
                line_views(out@),
            ),
        decreases g@.len() - i,
    {
        let t = g[i].content;
        let semis: usize = g[i].semis;
        if !line_is_silent(t) {
            match line_definition(t) {
                Some(d) => {
                    proof {
                        lemma_definition_kind(t@);
                    }
                    take_definition(reg, t, d);
                },
                None => {
                    let ghost before = out@;
                    out.push(ParsedLine { depth, content: t });
                    assert(line_views(out@) =~= line_views(before).push(
                        Line { depth: depth as int, text: t@ },
                    ));
                    proof {
                        lemma_levels_opened(t@);
                    }
                    depth += count_levels(t);
                },
            }
        }
        if semis >= 2 {
            if depth >= semis - 1 {
                depth -= semis - 1;
            } else {
                depth = 0;
            }
        }
        i += 1;
    }
    out
}

} // verus!
