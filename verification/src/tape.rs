//! Reading a document into a flat row of nodes, line by line.

use std::borrow::Cow;
use vstd::prelude::*;
use crate::bytes::cut;
use crate::decoder::{
    bad, decode_text, depth_at, good, is_inline_item, is_item, is_minified, item_base,
    item_is_inline, item_of, item_text, new_setting, Decoder, Out, Setting,
};
use crate::float::Float;
use crate::lines::{
    array_header, bare_key, define, definition_kind, depth_of, detect_indent, detected_indent,
    is_silent, known, lemma_definition_kind, line_definition, line_is_silent, strip_all,
    strip_quotes, take_definition, try_array_header, ArrayHeader, Header, Known, Line,
};
use crate::number::{number_of, numbers_equal, parse_number, same_number, Num, Parsed};
use crate::scan::{
    behind_quotes, brace_content, bracket_close, cell_end, find_brace_span, find_bracket_close,
    find_cell_end, find_colon, find_quote_close, has_colon, holds_colon, key_colon,
    lemma_behind_quotes, lemma_brace_span, lemma_key_colon, lemma_pieces, outside, pieces,
    quote_close,
};
use crate::schema_registry::{SchemaRegistry, Stores};
use crate::text::{
    begins, chars_of, find, has_char, indentation, indentation_of, lemma_find_from, lemma_trim_len,
    line_list, lines, owned, part, position, same_text, texts, trim, trimmed, Text,
};
use crate::tokens::{is_reference, parse_reference, reference, split_pieces, token_is_reference};
use crate::value::{
    compact_as_str, lemma_entry_smaller, lemma_item_smaller, lemma_models, models, Entries, Val,
    Value,
};

verus! {

// ---------------------------------------------------------------------------
// Nodes

/// What a node is. The nodes of an array or an object follow it, and a key
/// stands before each value of an object.
pub enum Mark {
    Null,
    Bool(bool),
    Integer(i64),
    Float(Text),
    Str(Text),
    Object(nat),
    Array(nat),
    Key(Text),
}

/// A node of a tape. Strings borrow from the document, except where they come
/// from a definition.
#[derive(Debug)]
pub enum Node<'a> {
    Null,
    Bool(bool),
    Integer(i64),
    Float(Float),
    String(Cow<'a, str>),
    Object(usize),
    Array(usize),
    Key(Cow<'a, str>),
}

impl<'a> View for Node<'a> {
    type V = Mark;

    open spec fn view(&self) -> Mark {
        match self {
            Node::Null => Mark::Null,
            Node::Bool(b) => Mark::Bool(*b),
            Node::Integer(n) => Mark::Integer(*n),
            Node::Float(t) => Mark::Float(t@),
            Node::String(s) => Mark::Str(s@),
            Node::Object(n) => Mark::Object(*n as nat),
            Node::Array(n) => Mark::Array(*n as nat),
            Node::Key(k) => Mark::Key(k@),
        }
    }
}

/// A copy of a text that may be borrowed.
fn copy_text<'a>(t: &Cow<'a, str>) -> (r: Cow<'a, str>)
    ensures
        r@ == t@,
{
    match t {
        Cow::Borrowed(s) => Cow::Borrowed(s),
        Cow::Owned(s) => Cow::Owned(s.clone()),
    }
}

/// A text that may be borrowed.
fn text_of<'b, 'a>(t: &'b Cow<'a, str>) -> (r: &'b str)
    ensures
        r@ == t@,
{
    match t {
        Cow::Borrowed(s) => s,
        Cow::Owned(s) => s.as_str(),
    }
}

/// Whether two nodes are equal: numbers that are not integers by the number that
/// they stand for.
pub open spec fn mark_eq(a: Mark, b: Mark) -> bool {
    match (a, b) {
        (Mark::Float(x), Mark::Float(y)) => same_number(x, y),
        _ => a == b,
    }
}

impl<'a> PartialEq for Node<'a> {
    fn eq(&self, other: &Node<'a>) -> (r: bool) {
        match (self, other) {
            (Node::Null, Node::Null) => true,
            (Node::Bool(x), Node::Bool(y)) => *x == *y,
            (Node::Integer(x), Node::Integer(y)) => *x == *y,
            (Node::Float(x), Node::Float(y)) => numbers_equal(x.as_str(), y.as_str()),
            (Node::String(x), Node::String(y)) => same_text(text_of(x), text_of(y)),
            (Node::Object(x), Node::Object(y)) => *x == *y,
            (Node::Array(x), Node::Array(y)) => *x == *y,
            (Node::Key(x), Node::Key(y)) => same_text(text_of(x), text_of(y)),
            _ => false,
        }
    }
}

impl<'a> vstd::std_specs::cmp::PartialEqSpecImpl for Node<'a> {
    open spec fn obeys_eq_spec() -> bool {
        true
    }

    open spec fn eq_spec(&self, other: &Node<'a>) -> bool {
        mark_eq(self@, other@)
    }
}

impl<'a> Clone for Node<'a> {
    /// A copy of the node.
    fn clone(&self) -> (r: Node<'a>)
        ensures
            r@ == self@,
    {
        match self {
            Node::Null => Node::Null,
            Node::Bool(b) => Node::Bool(*b),
            Node::Integer(n) => Node::Integer(*n),
            Node::Float(t) => Node::Float(t.clone()),
            Node::String(s) => Node::String(copy_text(s)),
            Node::Object(n) => Node::Object(*n),
            Node::Array(n) => Node::Array(*n),
            Node::Key(k) => Node::Key(copy_text(k)),
        }
    }
}

/// What the nodes of a sequence are.
pub open spec fn marks(v: Seq<Node>) -> Seq<Mark> {
    Seq::new(v.len(), |i: int| v[i]@)
}

/// The nodes of a document.
pub struct Tape<'a> {
    pub nodes: Vec<Node<'a>>,
}

impl<'a> Tape<'a> {
    /// The number of nodes.
    pub fn len(&self) -> (r: usize)
        ensures
            r == self.nodes@.len(),
    {
        self.nodes.len()
    }

    /// Whether there is no node.
    pub fn is_empty(&self) -> (r: bool)
        ensures
            r == (self.nodes@.len() == 0),
    {
        self.nodes.len() == 0
    }
}

/// The nodes of a value.
pub open spec fn flat(v: Val) -> Seq<Mark>
    decreases v, 0int,
{
    match v {
        Val::Null => seq![Mark::Null],
        Val::Bool(b) => seq![Mark::Bool(b)],
        Val::Integer(n) => seq![Mark::Integer(n)],
        Val::Float(t) => seq![Mark::Float(t)],
        Val::Str(s) => seq![Mark::Str(s)],
        Val::Array(a) => seq![Mark::Array(a.len())] + flat_items(a, 0),
        Val::Object(o) => seq![Mark::Object(o.len())] + flat_entries(o, 0),
    }
}

/// The nodes of the items from `i` on.
pub open spec fn flat_items(a: Seq<Val>, i: int) -> Seq<Mark>
    decreases a, a.len() - i,
{
    if 0 <= i < a.len() {
        flat(a[i]) + flat_items(a, i + 1)
    } else {
        seq![]
    }
}

/// The nodes of the entries from `i` on.
pub open spec fn flat_entries(o: Entries, i: int) -> Seq<Mark>
    decreases o, o.len() - i,
{
    if 0 <= i < o.len() {
        seq![Mark::Key(o[i].0)] + flat(o[i].1) + flat_entries(o, i + 1)
    } else {
        seq![]
    }
}

// ---------------------------------------------------------------------------
// The nodes of tokens

/// The nodes of a primitive. A string in quotes keeps its escapes.
pub open spec fn tape_primitive(s: Stores, open: Seq<Text>, token: Text) -> (Seq<Mark>, Seq<Text>) {
    let t = trim(token);
    if t.len() == 0 {
        (seq![Mark::Str(seq![])], open)
    } else if t == "[]"@ {
        (seq![Mark::Array(0)], open)
    } else if t == "{}"@ {
        (seq![Mark::Object(0)], open)
    } else if is_reference(t) {
        let (v, then) = reference(s, open, t);
        (flat(v), then)
    } else {
        (seq![plain_mark(t)], open)
    }
}

/// The node of a token that is no reference.
pub open spec fn plain_mark(t: Text) -> Mark {
    if t[0] == '"' && quote_close(t, 1) is Some {
        Mark::Str(t.subrange(1, quote_close(t, 1)->0))
    } else if t == "true"@ {
        Mark::Bool(true)
    } else if t == "false"@ {
        Mark::Bool(false)
    } else if t == "null"@ {
        Mark::Null
    } else {
        match number_of(t) {
            Num::Whole(n) => Mark::Integer(n),
            Num::Decimal(d) => Mark::Float(d),
            Num::Other => Mark::Str(t),
        }
    }
}

/// The nodes of the pieces `parts` from the `i`-th on, behind `done`.
pub open spec fn tape_pieces(
    s: Stores,
    open: Seq<Text>,
    parts: Seq<Text>,
    i: int,
    done: Seq<Mark>,
) -> (Seq<Mark>, Seq<Text>)
    decreases parts.len() - i,
{
    if 0 <= i < parts.len() {
        let (m, then) = tape_primitive(s, open, parts[i]);
        tape_pieces(s, then, parts, i + 1, done + m)
    } else {
        (done, open)
    }
}

/// The nodes of an array whose items stand on one line.
pub open spec fn tape_delimited(s: Stores, open: Seq<Text>, x: Text, d: char) -> (
    Seq<Mark>,
    Seq<Text>,
) {
    let (m, then) = tape_pieces(s, open, pieces(x, d), 0, seq![]);
    (seq![Mark::Array(pieces(x, d).len())] + m, then)
}

/// The nodes of a value on one line.
pub open spec fn tape_inline(s: Stores, open: Seq<Text>, input: Text) -> (Seq<Mark>, Seq<Text>)
    decreases input.len(), 0nat, 0nat,
{
    proof {
        lemma_trim_len(input);
        lemma_brace_span(trim(input), 0, outside(), 0);
    }
    let t = trim(input);
    if t.len() > 0 && t[0] == '{' && brace_content(t) is Some {
        let (m, n, then) = tape_entries(s, open, brace_content(t)->0, 0, seq![], 0);
        (seq![Mark::Object(n)] + m, then)
    } else if t.len() > 0 && t[0] == '[' && bracket_close(t, 0, outside()) is Some {
        tape_delimited(s, open, t.subrange(1, bracket_close(t, 0, outside())->0), ',')
    } else {
        tape_primitive(s, open, t)
    }
}

/// The nodes of the entries that the pieces of `x` from the `i`-th on stand for,
/// behind `done`, and the number of entries. Keys keep their escapes.
pub open spec fn tape_entries(
    s: Stores,
    open: Seq<Text>,
    x: Text,
    i: int,
    done: Seq<Mark>,
    n: nat,
) -> (Seq<Mark>, nat, Seq<Text>)
    decreases x.len(), 1nat, pieces(x, ',').len() - i,
{
    if 0 <= i < pieces(x, ',').len() {
        proof {
            lemma_pieces(x, ',');
            lemma_trim_len(pieces(x, ',')[i]);
            lemma_key_colon(trim(pieces(x, ',')[i]));
        }
        let p = trim(pieces(x, ',')[i]);
        match key_colon(p) {
            Some(k) => {
                let (m, then) = tape_inline(s, open, p.subrange(k + 1, p.len() as int));
                tape_entries(
                    s,
                    then,
                    x,
                    i + 1,
                    done + (seq![Mark::Key(bare_key(p.subrange(0, k)))] + m),
                    n + 1,
                )
            },
            None => tape_entries(s, open, x, i + 1, done, n),
        }
    } else {
        (done, n, open)
    }
}

/// The cells of a row: the pieces between delimiters outside of quotes.
pub open spec fn cells(s: Text, d: char) -> Seq<Text>
    decreases s.len(),
{
    let e = cell_end(s, d, 0, outside());
    if 0 <= e < s.len() {
        seq![s.subrange(0, e)] + cells(s.subrange(e + 1, s.len() as int), d)
    } else {
        seq![s]
    }
}

/// The nodes of a row from the `k`-th field on, behind `done`: `null` where
/// there is no cell.
pub open spec fn tape_row(
    s: Stores,
    open: Seq<Text>,
    fields: Seq<Text>,
    row: Seq<Text>,
    k: int,
    done: Seq<Mark>,
) -> (Seq<Mark>, Seq<Text>)
    decreases fields.len() - k,
{
    if 0 <= k < fields.len() {
        let (m, then) = if k < row.len() {
            tape_primitive(s, open, row[k])
        } else {
            (seq![Mark::Null], open)
        };
        tape_row(s, then, fields, row, k + 1, done + (seq![Mark::Key(fields[k])] + m))
    } else {
        (done, open)
    }
}

// ---------------------------------------------------------------------------
// The lines that are left

/// The lines of a document that hold its value, one after the other.
pub open spec fn kept(s: Text, indent: nat) -> Seq<Line>
    decreases s.len(),
{
    proof {
        lemma_find_from(s, '\n', 0);
    }
    if s.len() == 0 {
        seq![]
    } else {
        match find(s, '\n') {
            Some(k) => kept_line(s.subrange(0, k), indent) + kept(
                s.subrange(k + 1, s.len() as int),
                indent,
            ),
            None => kept_line(s, indent),
        }
    }
}

/// The line, where it holds a value.
pub open spec fn kept_line(line: Text, indent: nat) -> Seq<Line> {
    let t = trim(line);
    if is_silent(t) || definition_kind(t) is Some {
        seq![]
    } else {
        seq![Line { depth: depth_of(indentation(line), indent), text: t }]
    }
}

/// What is known once the definitions among the lines from `i` on have been
/// taken in.
pub open spec fn prescanned(k: Known, ls: Seq<Text>, i: int) -> Known
    decreases ls.len() - i,
{
    if 0 <= i < ls.len() {
        match definition_kind(trim(ls[i])) {
            Some(d) => prescanned(define(k, trim(ls[i]), d), ls, i + 1),
            None => prescanned(k, ls, i + 1),
        }
    } else {
        k
    }
}

/// Goes through the lines of a document that hold its value.
struct LineIter<'a> {
    remaining: &'a str,
    indent: usize,
    peeked: Option<(usize, &'a str, &'a str)>,
}

impl<'a> View for LineIter<'a> {
    type V = Seq<Line>;

    /// The lines that are left.
    closed spec fn view(&self) -> Seq<Line> {
        match self.peeked {
            Some((d, t, rest)) => seq![Line { depth: d as int, text: t@ }] + kept(
                rest@,
                self.indent as nat,
            ),
            None => kept(self.remaining@, self.indent as nat),
        }
    }
}

impl<'a> LineIter<'a> {
    /// The lines of `input`, with a number of spaces to a level.
    fn new(input: &'a str, indent_hint: usize) -> (r: LineIter<'a>)
        ensures
            r@ == kept(input@, indent_hint as nat),
            r.remaining@ == input@,
            r.indent == indent_hint,
            r.peeked is None,
    {
        LineIter { remaining: input, indent: indent_hint, peeked: None }
    }

    /// Finds the number of spaces to a level out from a document.
    fn auto_detect_indent(&mut self, input: &'a str)
        requires
            old(self).peeked is None,
        ensures
            final(self).indent == detected_indent(input@, old(self).indent as nat),
            final(self)@ == kept(old(self).remaining@, final(self).indent as nat),
            final(self).remaining == old(self).remaining,
            final(self).peeked is None,
    {
        self.indent = detect_indent(input, self.indent);
    }

    /// The next line that holds a value, and what is behind it.
    fn scan_next(from: &'a str, indent: usize) -> (r: Option<(usize, &'a str, &'a str)>)
        ensures
            match r {
                Some((d, t, rest)) => kept(from@, indent as nat) == seq![
                    Line { depth: d as int, text: t@ },
                ] + kept(rest@, indent as nat),
                None => kept(from@, indent as nat) == Seq::<Line>::empty(),
            },
    {
        let mut remaining: &'a str = from;
        while !remaining.is_empty()
            invariant
                kept(from@, indent as nat) == kept(remaining@, indent as nat),
            decreases remaining@.len(),
        {
            let ghost whole = remaining@;
            let line: &'a str;
            match cut(remaining, 0x0a) {
                Some((l, rest)) => {
                    line = l;
                    remaining = rest;
                },
                None => {
                    line = remaining;
                    remaining = "";
                    proof {
                        reveal_strlit("");
                    }
                },
            }
            assert(kept(whole, indent as nat) =~= kept_line(line@, indent as nat) + kept(
                remaining@,
                indent as nat,
            ));
            let t = trimmed(line);
            if !line_is_silent(t) && line_definition(t).is_none() {
                let spaces: usize = indentation_of(line);
                let depth: usize = if indent > 0 {
                    spaces / indent
                } else {
                    0
                };
                return Some((depth, t, remaining));
            }
            assert(kept(whole, indent as nat) =~= kept(remaining@, indent as nat));
        }
        None
    }

    /// Takes the next line.
    fn next_line(&mut self) -> (r: Option<(usize, &'a str)>)
        ensures
            match r {
                Some((d, t)) => old(self)@.len() > 0 && old(self)@[0] == (Line {
                    depth: d as int,
                    text: t@,
                }) && final(self)@ == old(self)@.drop_first(),
                None => old(self)@.len() == 0 && final(self)@ == old(self)@,
            },
            old(self).peeked matches Some((d, t, _)) ==> r == Some((d, t)),
    {
        let found: Option<(usize, &'a str, &'a str)> = match self.peeked {
            Some(p) => Some(p),
            None => LineIter::scan_next(self.remaining, self.indent),
        };
        match found {
            Some((d, t, rest)) => {
                self.peeked = None;
                self.remaining = rest;
                assert(self@ =~= old(self)@.drop_first());
                Some((d, t))
            },
            None => None,
        }
    }

    /// The next line.
    fn peek_line(&mut self) -> (r: Option<(usize, &'a str)>)
        ensures
            final(self)@ == old(self)@,
            match r {
                Some((d, t)) => old(self)@.len() > 0 && old(self)@[0] == (Line {
                    depth: d as int,
                    text: t@,
                }),
                None => old(self)@.len() == 0,
            },
            old(self).peeked is Some ==> final(self).peeked == old(self).peeked,
            final(self).peeked matches Some((d, t, _)) ==> r == Some((d, t)),
            final(self).peeked is None ==> r is None,
    {
        if self.peeked.is_none() {
            self.peeked = LineIter::scan_next(self.remaining, self.indent);
        }
        match self.peeked {
            Some((d, t, _)) => Some((d, t)),
            None => None,
        }
    }

    /// Looks at the next line twice and takes it. Looking takes nothing: the line
    /// that is seen is the one that is taken, and the lines behind it are those
    /// that stood behind it before.
    #[allow(dead_code)]
    fn peek_and_take(&mut self) -> (r: (
        Option<(usize, &'a str)>,
        Option<(usize, &'a str)>,
        Option<(usize, &'a str)>,
    ))
        ensures
            r.0 == r.1,
            r.1 == r.2,
            r.2 is Some <==> old(self)@.len() > 0,
            match r.2 {
                Some((d, t)) => old(self)@ == seq![Line { depth: d as int, text: t@ }]
                    + final(self)@,
                None => final(self)@ == old(self)@,
            },
    {
        let first = self.peek_line();
        let second = self.peek_line();
        let taken = self.next_line();
        proof {
            if taken is Some {
                assert(old(self)@ =~= seq![old(self)@[0]] + old(self)@.drop_first());
            }
        }
        (first, second, taken)
    }
}

// ---------------------------------------------------------------------------
// The nodes of lines

/// Nodes, a number of entries or items, and the lines behind them.
pub struct Run {
    pub marks: Seq<Mark>,
    pub count: nat,
    pub rest: Seq<Line>,
}

/// What is left of `ls`, where `rest` was reached.
pub open spec fn shorter(ls: Seq<Line>, rest: Seq<Line>) -> Seq<Line> {
    if rest.len() < ls.len() {
        rest
    } else {
        ls.drop_first()
    }
}

/// What is left of `ls`, where `rest` may have been reached.
pub open spec fn no_longer(ls: Seq<Line>, rest: Seq<Line>) -> Seq<Line> {
    if rest.len() <= ls.len() {
        rest
    } else {
        ls
    }
}

/// The nodes of an object, with the node that it begins with.
pub open spec fn as_object(t: Out<Run>) -> Out<Run> {
    match t.result {
        Ok(r) => good(
            Run { marks: seq![Mark::Object(r.count)] + r.marks, count: 1, rest: r.rest },
            t.open,
        ),
        Err(m) => bad(m, t.open),
    }
}

/// The nodes of an array, with the node that it begins with.
pub open spec fn as_array(t: Out<Run>) -> Out<Run> {
    match t.result {
        Ok(r) => good(
            Run { marks: seq![Mark::Array(r.count)] + r.marks, count: 1, rest: r.rest },
            t.open,
        ),
        Err(m) => bad(m, t.open),
    }
}

/// The nodes of an entry: a key before the nodes of its value.
pub open spec fn keyed(key: Text, t: Out<Run>) -> Out<Run> {
    match t.result {
        Ok(r) => good(Run { marks: seq![Mark::Key(key)] + r.marks, count: 1, rest: r.rest }, t.open),
        Err(m) => bad(m, t.open),
    }
}

/// The key that a line begins with, with its escapes, and where it ends.
pub open spec fn raw_leading_key(c: Text) -> Result<(Text, int), Text> {
    if c.len() > 0 && c[0] == '"' {
        match quote_close(c, 1) {
            None => Err("Unterminated quoted key"@),
            Some(q) => if q + 1 < c.len() && c[q + 1] == ':' {
                Ok((c.subrange(1, q), q + 2))
            } else {
                Err("Missing colon after key"@)
            },
        }
    } else {
        match find(c, ':') {
            Some(k) => Ok((trim(c.subrange(0, k)), k + 1)),
            None => Err("Missing colon after key"@),
        }
    }
}

/// The key of a line whose key ends at the colon at `k`, with its escapes, and
/// where it ends.
pub open spec fn raw_key_before(c: Text, k: int) -> Result<(Text, int), Text> {
    if c.len() > 0 && c[0] == '"' {
        raw_leading_key(c)
    } else {
        Ok((trim(c.subrange(0, k)), k + 1))
    }
}

/// The nodes of the entries that the lines stand for at depth `base`, behind
/// `done` with `n` entries.
pub open spec fn tape_object(
    s: Stores,
    open: Seq<Text>,
    ls: Seq<Line>,
    base: int,
    done: Seq<Mark>,
    n: nat,
) -> Out<Run>
    decreases ls.len(), 0nat,
{
    if ls.len() == 0 || ls[0].depth < base {
        good(Run { marks: done, count: n, rest: ls }, open)
    } else if ls[0].depth > base {
        tape_object(s, open, ls.drop_first(), base, done, n)
    } else {
        let t = tape_field(s, open, ls[0].text, ls.drop_first(), base);
        match t.result {
            Err(m) => bad(m, t.open),
            Ok(r) => tape_object(
                s,
                t.open,
                shorter(ls, r.rest),
                base,
                done + r.marks,
                n + r.count,
            ),
        }
    }
}

/// The nodes of the entry that the line `c` stands for with the lines behind it,
/// if any.
pub open spec fn tape_field(s: Stores, open: Seq<Text>, c: Text, ls: Seq<Line>, base: int) -> Out<Run>
    decreases ls.len(), 2nat,
{
    match array_header(c) {
        Some(h) if h.key is Some => {
            keyed(h.raw->0, tape_array(s, open, ls, base, h))
        },
        _ => match key_colon(c) {
            Some(k) => tape_key_value(s, open, c, k, ls, base),
            None => good(Run { marks: seq![], count: 0, rest: ls }, open),
        },
    }
}

/// The nodes of the entry that the line `c` stands for, whose key ends at the
/// colon at `k`.
pub open spec fn tape_key_value(
    s: Stores,
    open: Seq<Text>,
    c: Text,
    k: int,
    ls: Seq<Line>,
    base: int,
) -> Out<Run>
    decreases ls.len(), 1nat,
{
    match raw_key_before(c, k) {
        Err(m) => bad(m, open),
        Ok((key, end)) => {
            let rest = trim(c.subrange(end, c.len() as int));
            keyed(
                key,
                if rest.len() > 0 {
                    let (m, then) = tape_inline(s, open, rest);
                    good(Run { marks: m, count: 1, rest: ls }, then)
                } else if ls.len() > 0 && ls[0].depth > base {
                    if ls[0].depth == base + 1 && is_item(ls[0].text) {
                        as_array(tape_list(s, open, ls, base, seq![], 0))
                    } else {
                        as_object(tape_object(s, open, ls, base + 1, seq![], 0))
                    }
                } else {
                    good(Run { marks: seq![Mark::Object(0)], count: 1, rest: ls }, open)
                },
            )
        },
    }
}

/// The nodes of the items that the lines stand for below depth `base`, behind
/// `done` with `n` items.
pub open spec fn tape_list(
    s: Stores,
    open: Seq<Text>,
    ls: Seq<Line>,
    base: int,
    done: Seq<Mark>,
    n: nat,
) -> Out<Run>
    decreases ls.len(), 0nat,
{
    if ls.len() == 0 || ls[0].depth < base + 1 {
        good(Run { marks: done, count: n, rest: ls }, open)
    } else if ls[0].depth > base + 1 {
        tape_list(s, open, ls.drop_first(), base, done, n)
    } else if !is_item(ls[0].text) {
        good(Run { marks: done, count: n, rest: ls }, open)
    } else {
        let item = item_text(ls[0].text);
        if is_inline_item(item) {
            let (m, then) = tape_inline(s, open, item);
            tape_list(s, then, ls.drop_first(), base, done + m, n + 1)
        } else {
            let t = tape_list_item(s, open, item, ls.drop_first(), base);
            match t.result {
                Err(m) => bad(m, t.open),
                Ok(r) => tape_list(
                    s,
                    t.open,
                    shorter(ls, r.rest),
                    base,
                    done + r.marks,
                    n + 1,
                ),
            }
        }
    }
}

/// The nodes of the array that the header `h` at depth `base` announces.
pub open spec fn tape_array(s: Stores, open: Seq<Text>, ls: Seq<Line>, base: int, h: Header) -> Out<Run>
    decreases ls.len(), 1nat,
{
    if h.length == 0 {
        good(Run { marks: seq![Mark::Array(0)], count: 1, rest: ls }, open)
    } else {
        match h.raw_fields {
            None => match h.inline {
                Some(x) => {
                    let (m, then) = tape_delimited(s, open, x, h.delimiter);
                    good(Run { marks: m, count: 1, rest: ls }, then)
                },
                None => {
                    as_array(tape_expanded(s, open, ls, base, h.length, seq![], 0))
                },
            },
            Some(f) => {
                let (r, then) = tape_table(s, open, ls, base, h.length, f, h.delimiter, seq![], 0);
                good(
                    Run { marks: seq![Mark::Array(r.count)] + r.marks, count: 1, rest: r.rest },
                    then,
                )
            },
        }
    }
}

/// The nodes of the rows that the lines below depth `base` stand for, behind
/// `done` with `n` rows: at most `most` in all.
pub open spec fn tape_table(
    s: Stores,
    open: Seq<Text>,
    ls: Seq<Line>,
    base: int,
    most: nat,
    fields: Seq<Text>,
    d: char,
    done: Seq<Mark>,
    n: nat,
) -> (Run, Seq<Text>)
    decreases ls.len(),
{
    if ls.len() > 0 && n < most && ls[0].depth == base + 1 {
        let (m, then) = tape_row(s, open, fields, cells(ls[0].text, d), 0, seq![]);
        tape_table(
            s,
            then,
            ls.drop_first(),
            base,
            most,
            fields,
            d,
            done + (seq![Mark::Object(fields.len())] + m),
            n + 1,
        )
    } else {
        (Run { marks: done, count: n, rest: ls }, open)
    }
}

/// The nodes of the items that the lines below depth `base` stand for, behind
/// `done` with `n` items: at most `most` in all.
pub open spec fn tape_expanded(
    s: Stores,
    open: Seq<Text>,
    ls: Seq<Line>,
    base: int,
    most: nat,
    done: Seq<Mark>,
    n: nat,
) -> Out<Run>
    decreases ls.len(), 0nat,
{
    if ls.len() == 0 || n >= most || ls[0].depth != base + 1 {
        good(Run { marks: done, count: n, rest: ls }, open)
    } else if !is_item(ls[0].text) {
        tape_expanded(s, open, ls.drop_first(), base, most, done, n)
    } else {
        let item = item_text(ls[0].text);
        let after = ls.drop_first();
        match array_header(item) {
            Some(h) if h.key is None => match h.inline {
                Some(x) => {
                    let (m, then) = tape_delimited(s, open, x, h.delimiter);
                    tape_expanded(s, then, after, base, most, done + m, n + 1)
                },
                None => {
                    let t = tape_array(s, open, after, item_base(base + 1, depth_at(after, 0)), h);
                    match t.result {
                        Err(m) => bad(m, t.open),
                        Ok(r) => tape_expanded(
                            s,
                            t.open,
                            shorter(ls, r.rest),
                            base,
                            most,
                            done + r.marks,
                            n + 1,
                        ),
                    }
                },
            },
            _ => if is_inline_item(item) {
                let (m, then) = tape_inline(s, open, item);
                tape_expanded(s, then, after, base, most, done + m, n + 1)
            } else {
                let t = tape_list_item(s, open, item, after, base);
                match t.result {
                    Err(m) => bad(m, t.open),
                    Ok(r) => tape_expanded(
                        s,
                        t.open,
                        shorter(ls, r.rest),
                        base,
                        most,
                        done + r.marks,
                        n + 1,
                    ),
                }
            },
        }
    }
}

/// The nodes of the entry that a list item begins with, if any.
pub open spec fn tape_item_head(
    s: Stores,
    open: Seq<Text>,
    item: Text,
    ls: Seq<Line>,
    base: int,
) -> Out<Run>
    decreases ls.len(), 2nat,
{
    match array_header(item) {
        Some(h) => match h.raw {
            Some(k) => keyed(
                k,
                tape_array(s, open, ls, item_base(base + 1, depth_at(ls, 0)), h),
            ),
            None => good(Run { marks: seq![], count: 0, rest: ls }, open),
        },
        None => match raw_leading_key(item) {
            Err(m) => bad(m, open),
            Ok((k, end)) => keyed(
                k,
                tape_item_value(s, open, trim(item.subrange(end, item.len() as int)), ls, base),
            ),
        },
    }
}

/// The nodes of the value of the entry that a list item begins with: on the line
/// itself, or on the lines behind it.
pub open spec fn tape_item_value(
    s: Stores,
    open: Seq<Text>,
    rest: Text,
    ls: Seq<Line>,
    base: int,
) -> Out<Run>
    decreases ls.len(), 1nat,
{
    if rest.len() > 0 {
        let (m, then) = tape_inline(s, open, rest);
        good(Run { marks: m, count: 1, rest: ls }, then)
    } else if ls.len() > 0 && ls[0].depth >= base + 2 {
        as_object(tape_object(s, open, ls, item_base(base + 1, ls[0].depth) + 1, seq![], 0))
    } else {
        good(Run { marks: seq![Mark::Object(0)], count: 1, rest: ls }, open)
    }
}

/// The nodes of the object that a list item stands for, with the lines behind
/// it.
pub open spec fn tape_list_item(
    s: Stores,
    open: Seq<Text>,
    item: Text,
    ls: Seq<Line>,
    base: int,
) -> Out<Run>
    decreases ls.len(), 3nat,
{
    let t = tape_item_head(s, open, item, ls, base);
    match t.result {
        Err(m) => bad(m, t.open),
        Ok(r) => {
            let u = tape_more(s, t.open, no_longer(ls, r.rest), base + 2, r.marks, r.count);
            match u.result {
                Err(m) => bad(m, u.open),
                Ok(q) => good(
                    Run { marks: seq![Mark::Object(q.count)] + q.marks, count: 1, rest: q.rest },
                    u.open,
                ),
            }
        },
    }
}

/// The nodes of the entries of a list item on the lines at depth `depth`, behind
/// `done` with `n` entries.
pub open spec fn tape_more(
    s: Stores,
    open: Seq<Text>,
    ls: Seq<Line>,
    depth: int,
    done: Seq<Mark>,
    n: nat,
) -> Out<Run>
    decreases ls.len(), 0nat,
{
    if ls.len() == 0 || ls[0].depth < depth {
        good(Run { marks: done, count: n, rest: ls }, open)
    } else if ls[0].depth > depth {
        tape_more(s, open, ls.drop_first(), depth, done, n)
    } else if is_item(ls[0].text) {
        good(Run { marks: done, count: n, rest: ls }, open)
    } else {
        let t = tape_field(s, open, ls[0].text, ls.drop_first(), depth);
        match t.result {
            Err(m) => bad(m, t.open),
            Ok(r) => tape_more(
                s,
                t.open,
                shorter(ls, r.rest),
                depth,
                done + r.marks,
                n + r.count,
            ),
        }
    }
}

/// The nodes of the object that all lines stand for.
#[verifier::opaque]
pub open spec fn tape_root(s: Stores, open: Seq<Text>, ls: Seq<Line>) -> Out<Seq<Mark>> {
    let t = tape_object(s, open, ls, 0, seq![], 0);
    match t.result {
        Ok(r) => good(seq![Mark::Object(r.count)] + r.marks, t.open),
        Err(m) => bad(m, t.open),
    }
}

/// The nodes of the array that a document without a key stands for.
#[verifier::opaque]
pub open spec fn root_array(s: Stores, open: Seq<Text>, ls: Seq<Line>, base: int, h: Header) -> Out<
    Seq<Mark>,
> {
    let t = tape_array(s, open, ls, base, h);
    match t.result {
        Ok(r) => good(r.marks, t.open),
        Err(m) => bad(m, t.open),
    }
}

/// The nodes of the object that the lines `now` stand for, where the first has a
/// colon, or of the token that is the only one; else of the object that the
/// lines `ls` stand for.
#[verifier::opaque]
pub open spec fn fields_or_token(
    s: Stores,
    open: Seq<Text>,
    now: Seq<Line>,
    ls: Seq<Line>,
) -> Out<Seq<Mark>> {
    if has_colon(now[0].text) {
        tape_root(s, open, now)
    } else {
        let (m, then) = tape_primitive(s, open, now[0].text);
        if now.len() == 1 {
            good(m, then)
        } else {
            tape_root(s, then, ls)
        }
    }
}

/// The nodes of the value that the lines of a document stand for. A first line
/// `{}` with others behind it is passed over; a first line without a colon that
/// has others behind it is read and dropped.
pub open spec fn tape_document(s: Stores, open: Seq<Text>, ls: Seq<Line>) -> Out<Seq<Mark>> {
    if ls.len() == 0 || (ls.len() == 1 && ls[0].text == "{}"@) {
        good(seq![Mark::Object(0)], open)
    } else {
        match array_header(ls[0].text) {
            Some(h) if h.key is None => root_array(s, open, ls.drop_first(), ls[0].depth, h),
            _ => {
                let now = if ls[0].text == "{}"@ {
                    ls.drop_first()
                } else {
                    ls
                };
                fields_or_token(s, open, now, ls)
            },
        }
    }
}

/// The nodes of a document or what is said against it, and what the reader goes
/// by from then on. The nodes of a minified document are those of its value.
pub open spec fn tape_step(d: Setting, input: Text) -> (Result<Seq<Mark>, Text>, Setting) {
    if is_minified(input) {
        (
            match decode_text(input) {
                Ok(v) => Ok(flat(v)),
                Err(m) => Err(m),
            },
            d,
        )
    } else {
        let k = prescanned(d.known, lines(input), 0);
        let indent = if d.auto {
            detected_indent(input, d.indent)
        } else {
            d.indent
        };
        let out = tape_document(k.stores, k.open, kept(input, indent));
        (
            out.result,
            Setting { indent, auto: d.auto, known: Known { stores: k.stores, open: out.open } },
        )
    }
}

// ---------------------------------------------------------------------------
// Writing nodes

/// Nodes in three parts.
proof fn lemma_joined(a: Seq<Mark>, b: Seq<Mark>, c: Seq<Mark>)
    ensures
        a + b + c == a + (b + c),
{
    assert(a + b + c =~= a + (b + c));
}

/// Nodes in four parts, and a head with nothing behind it.
proof fn lemma_grown(a: Seq<Mark>, head: Seq<Mark>, done: Seq<Mark>, more: Seq<Mark>)
    ensures
        a + (head + done) + more == a + (head + (done + more)),
        head + Seq::<Mark>::empty() == head,
{
    assert(a + (head + done) + more =~= a + (head + (done + more)));
    assert(head + Seq::<Mark>::empty() =~= head);
}

/// Appends a node.
fn put_node<'a>(tape: &mut Vec<Node<'a>>, node: Node<'a>)
    ensures
        marks(final(tape)@) == marks(old(tape)@) + seq![node@],
        final(tape)@.len() == old(tape)@.len() + 1,
{
    tape.push(node);
    assert(marks(tape@) =~= marks(old(tape)@) + seq![node@]);
}

/// Puts the node right that stands behind `before` and before `done`.
fn settle<'a>(
    tape: &mut Vec<Node<'a>>,
    at: usize,
    node: Node<'a>,
    Ghost(before): Ghost<Seq<Mark>>,
    Ghost(first): Ghost<Mark>,
    Ghost(done): Ghost<Seq<Mark>>,
)
    requires
        marks(old(tape)@) == before + (seq![first] + done),
        at == before.len(),
    ensures
        marks(final(tape)@) == before + (seq![node@] + done),
{
    let ghost was = tape@;
    assert(marks(was).len() == was.len());
    tape.set(at, node);
    assert forall|i: int| 0 <= i < was.len() implies marks(tape@)[i] == (before + (seq![node@]
        + done))[i] by {
        if i != at {
            assert(marks(was)[i] == was[i]@);
        }
    }
    assert(marks(tape@) =~= before + (seq![node@] + done));
}

/// A primitive has a node.
proof fn lemma_some_mark(s: Stores, open: Seq<Text>, t: Text)
    ensures
        tape_primitive(s, open, t).0.len() >= 1,
        tape_inline(s, open, t).0.len() >= 1,
{
    let u = trim(t);
    if is_reference(u) {
        let v = reference(s, open, u).0;
        assert(flat(v).len() >= 1);
    }
    let w = trim(u);
    if is_reference(w) {
        let v = reference(s, open, w).0;
        assert(flat(v).len() >= 1);
    }
}

/// The nodes of a value.
fn emit_value<'a>(v: &Value, tape: &mut Vec<Node<'a>>)
    ensures
        marks(final(tape)@) == marks(old(tape)@) + flat(v@),
    decreases v@,
{
    let ghost before = tape@;
    match v {
        Value::Null => {
            put_node(tape, Node::Null);
        },
        Value::Bool(b) => {
            put_node(tape, Node::Bool(*b));
        },
        Value::Integer(n) => {
            put_node(tape, Node::Integer(*n));
        },
        Value::Float(t) => {
            put_node(tape, Node::Float(t.clone()));
        },
        Value::String(s) => {
            put_node(tape, Node::String(Cow::Owned(owned(compact_as_str(s)))));
        },
        Value::Array(a) => {
            assert(decreases_to!(v@ => v@->Array_0));
            let ghost m = models(a@);
            proof {
                lemma_models(a@);
            }
            put_node(tape, Node::Array(a.len()));
            let ghost want = marks(before) + flat(v@);
            proof {
                assert(want =~= marks(tape@) + flat_items(m, 0));
            }
            let mut i: usize = 0;
            while i < a.len()
                invariant
                    i <= a@.len() == m.len(),
                    m == models(a@),
                    decreases_to!(v@ => m),
                    forall|j: int| 0 <= j < a@.len() ==> m[j] == (#[trigger] a@[j])@,
                    want == marks(tape@) + flat_items(m, i as int),
                decreases a@.len() - i,
            {
                let ghost now = marks(tape@);
                proof {
                    lemma_item_smaller(m, i as int);
                    assert(a@[i as int]@ == m[i as int]);
                }
                emit_value(&a[i], tape);
                assert(now + (flat(m[i as int]) + flat_items(m, i + 1)) =~= marks(tape@) + flat_items(
                    m,
                    i + 1,
                ));
                i += 1;
            }
            assert(marks(tape@) + flat_items(m, i as int) =~= marks(tape@));
            return;
        },
        Value::Object(o) => {
            assert(decreases_to!(v@ => v@->Object_0));
            let n: usize = o.len();
            put_node(tape, Node::Object(n));
            let ghost want = marks(before) + flat(v@);
            proof {
                assert(want =~= marks(tape@) + flat_entries(o@, 0));
            }
            let mut i: usize = 0;
            while i < n
                invariant
                    i <= n == o@.len(),
                    decreases_to!(v@ => o@),
                    want == marks(tape@) + flat_entries(o@, i as int),
                decreases n - i,
            {
                let ghost now = tape@;
                proof {
                    lemma_entry_smaller(o@, i as int);
                }
                put_node(tape, Node::Key(Cow::Owned(owned(o.key_at(i)))));
                emit_value(o.value_at(i), tape);
                assert(marks(now) + (seq![Mark::Key(o@[i as int].0)] + flat(o@[i as int].1)
                    + flat_entries(o@, i + 1)) =~= marks(tape@) + flat_entries(o@, i + 1));
                i += 1;
            }
            assert(marks(tape@) + flat_entries(o@, i as int) =~= marks(tape@));
            return;
        },
    }
}

/// Whether nodes were written: the nodes `want.0` behind those before, the
/// definitions as they were, and the references that are being resolved.
pub open spec fn wrote(
    want: (Seq<Mark>, Seq<Text>),
    before: Seq<Node>,
    after: Seq<Node>,
    reg: SchemaRegistry,
    then: SchemaRegistry,
) -> bool {
    marks(after) == marks(before) + want.0 && then.stores() == reg.stores() && then.open() == want.1
}

/// The node of a token that is no reference.
fn plain_node<'a>(t: &'a str) -> (r: Node<'a>)
    requires
        t@.len() > 0,
    ensures
        r@ == plain_mark(t@),
{
    let cs = chars_of(t);
    if cs[0] == '"' {
        match find_quote_close(&cs, 1) {
            Some(k) => {
                return Node::String(Cow::Borrowed(part(t, 1, k)));
            },
            None => {},
        }
    }
    if same_text(t, "true") {
        return Node::Bool(true);
    }
    if same_text(t, "false") {
        return Node::Bool(false);
    }
    if same_text(t, "null") {
        return Node::Null;
    }
    match parse_number(&cs) {
        Parsed::Whole(n) => Node::Integer(n),
        Parsed::Decimal(f) => Node::Float(f),
        Parsed::Other => Node::String(Cow::Borrowed(t)),
    }
}

/// The nodes of a primitive.
fn emit_primitive<'a>(reg: &mut SchemaRegistry, token: &'a str, tape: &mut Vec<Node<'a>>)
    ensures
        wrote(
            tape_primitive(old(reg).stores(), old(reg).open(), token@),
            old(tape)@,
            final(tape)@,
            *old(reg),
            *final(reg),
        ),
{
    let t = trimmed(token);
    if !t.is_empty() && !same_text(t, "[]") && !same_text(t, "{}") && token_is_reference(t) {
        let v = parse_reference(reg, t);
        emit_value(&v, tape);
        return;
    }
    proof {
        reveal_strlit("");
    }
    let node: Node<'a> = if t.is_empty() {
        Node::String(Cow::Borrowed(""))
    } else if same_text(t, "[]") {
        Node::Array(0)
    } else if same_text(t, "{}") {
        Node::Object(0)
    } else {
        plain_node(t)
    };
    let ghost before = tape@;
    put_node(tape, node);
    proof {
        assert(t@.len() == 0 ==> ""@ =~= Seq::<char>::empty());
    }
}

/// The nodes of an array whose items stand on one line.
fn emit_delimited_values<'a>(reg: &mut SchemaRegistry, x: &'a str, d: char, tape: &mut Vec<Node<'a>>)
    ensures
        wrote(
            tape_delimited(old(reg).stores(), old(reg).open(), x@, d),
            old(tape)@,
            final(tape)@,
            *old(reg),
            *final(reg),
        ),
{
    let parts = split_pieces(x, d);
    let ghost before = tape@;
    put_node(tape, Node::Array(parts.len()));
    let ghost s = reg.stores();
    let ghost ps = texts(parts@);
    let ghost mut done: Seq<Mark> = seq![];
    let ghost want = tape_pieces(s, reg.open(), ps, 0, seq![]);
    proof {
        lemma_grown(marks(before), seq![Mark::Array(ps.len())], done, done);
    }
    let mut i: usize = 0;
    while i < parts.len()
        invariant
            i <= parts@.len(),
            ps == texts(parts@),
            reg.stores() == s,
            want == tape_pieces(s, reg.open(), ps, i as int, done),
            marks(tape@) == marks(before) + (seq![Mark::Array(ps.len())] + done),
        decreases parts@.len() - i,
    {
        let ghost m = tape_primitive(s, reg.open(), ps[i as int]).0;
        emit_primitive(reg, parts[i], tape);
        proof {
            lemma_grown(marks(before), seq![Mark::Array(ps.len())], done, m);
            done = done + m;
        }
        i += 1;
    }
}

/// The nodes of a value on one line.
fn emit_inline_value<'a>(reg: &mut SchemaRegistry, input: &'a str, tape: &mut Vec<Node<'a>>)
    ensures
        wrote(
            tape_inline(old(reg).stores(), old(reg).open(), input@),
            old(tape)@,
            final(tape)@,
            *old(reg),
            *final(reg),
        ),
    decreases input@.len(), 0nat,
{
    let t = trimmed(input);
    proof {
        lemma_trim_len(input@);
    }
    let cs = chars_of(t);
    if cs.len() > 0 && cs[0] == '{' {
        match find_brace_span(&cs) {
            Some((a, b)) => {
                emit_inline_object(reg, part(t, a + 1, b), tape);
                return;
            },
            None => {},
        }
    }
    if cs.len() > 0 && cs[0] == '[' {
        match find_bracket_close(&cs, 0) {
            Some(k) => {
                emit_delimited_values(reg, part(t, 1, k), ',', tape);
                return;
            },
            None => {},
        }
    }
    emit_primitive(reg, t, tape);
}

/// The nodes of an object whose entries stand on one line.
fn emit_inline_object<'a>(reg: &mut SchemaRegistry, x: &'a str, tape: &mut Vec<Node<'a>>)
    ensures
        ({
            let (m, n, then) = tape_entries(old(reg).stores(), old(reg).open(), x@, 0, seq![], 0);
            wrote(
                (seq![Mark::Object(n)] + m, then),
                old(tape)@,
                final(tape)@,
                *old(reg),
                *final(reg),
            )
        }),
    decreases x@.len(), 1nat,
{
    let parts = split_pieces(x, ',');
    let ghost before = tape@;
    let at: usize = tape.len();
    put_node(tape, Node::Object(0));
    let mut count: usize = 0;
    let ghost s = reg.stores();
    let ghost mut done: Seq<Mark> = seq![];
    let ghost want = tape_entries(s, reg.open(), x@, 0, seq![], 0);
    proof {
        lemma_pieces(x@, ',');
        lemma_grown(marks(before), seq![Mark::Object(0)], done, done);
    }
    let mut i: usize = 0;
    while i < parts.len()
        invariant
            i <= parts@.len(),
            count <= i,
            reg.stores() == s,
            texts(parts@) == pieces(x@, ','),
            forall|j: int| 0 <= j < pieces(x@, ',').len() ==> (#[trigger] pieces(x@, ',')[j]).len() <= x@.len(),
            want == tape_entries(s, reg.open(), x@, i as int, done, count as nat),
            marks(tape@) == marks(before) + (seq![Mark::Object(0)] + done),
        decreases parts@.len() - i,
    {
        assert(texts(parts@)[i as int] == pieces(x@, ',')[i as int]);
        proof {
            lemma_trim_len(parts@[i as int]@);
        }
        let p = trimmed(parts[i]);
        let ps = chars_of(p);
        let n: usize = ps.len();
        if let Some(k) = find_colon(&ps) {
            let ghost now = tape@;
            let key = strip_quotes(part(p, 0, k));
            put_node(tape, Node::Key(Cow::Borrowed(key)));
            let ghost m = tape_inline(s, reg.open(), p@.subrange(k + 1, n as int)).0;
            emit_inline_value(reg, part(p, k + 1, n), tape);
            count += 1;
            proof {
                lemma_joined(marks(now), seq![Mark::Key(key@)], m);
                lemma_grown(
                    marks(before),
                    seq![Mark::Object(0)],
                    done,
                    seq![Mark::Key(key@)] + m,
                );
                done = done + (seq![Mark::Key(key@)] + m);
            }
        }
        i += 1;
    }
    settle(
        tape,
        at,
        Node::Object(count),
        Ghost(marks(before)),
        Ghost(Mark::Object(0)),
        Ghost(done),
    );
}

/// The cells of a row.
fn split_cells<'a>(x: &'a str, d: char) -> (r: Vec<&'a str>)
    ensures
        texts(r@) == cells(x@, d),
{
    let mut r: Vec<&'a str> = Vec::new();
    let cs = chars_of(x);
    let n: usize = cs.len();
    let mut from: usize = 0;
    assert(x@.subrange(0, n as int) =~= x@);
    assert(texts(r@) + cells(x@, d) =~= cells(x@, d));
    loop
        invariant_except_break
            from <= n == cs@.len(),
            cs@ == x@,
            cells(x@, d) == texts(r@) + cells(x@.subrange(from as int, n as int), d),
        ensures
            cells(x@, d) == texts(r@),
        decreases n - from,
    {
        let ghost rest = x@.subrange(from as int, n as int);
        let ghost before = r@;
        let e: usize = find_cell_end(&cs, from, d);
        let cell = part(x, from, e);
        r.push(cell);
        assert(texts(r@) =~= texts(before) + seq![cell@]);
        if e == n {
            assert(cell@ =~= rest);
            break;
        }
        proof {
            assert(cell@ =~= rest.subrange(0, e - from));
            assert(rest.subrange(e - from + 1, rest.len() as int) =~= x@.subrange(e + 1, n as int));
            assert(texts(before) + (seq![cell@] + cells(x@.subrange(e + 1, n as int), d))
                =~= texts(r@) + cells(x@.subrange(e + 1, n as int), d));
        }
        from = e + 1;
    }
    r
}

/// The nodes of a row of a table.
fn emit_row<'a>(
    reg: &mut SchemaRegistry,
    fields: &Vec<&'a str>,
    content: &'a str,
    d: char,
    tape: &mut Vec<Node<'a>>,
)
    ensures
        ({
            let (m, then) = tape_row(
                old(reg).stores(),
                old(reg).open(),
                texts(fields@),
                cells(content@, d),
                0,
                seq![],
            );
            wrote(
                (seq![Mark::Object(fields@.len())] + m, then),
                old(tape)@,
                final(tape)@,
                *old(reg),
                *final(reg),
            )
        }),
{
    let row = split_cells(content, d);
    let ghost before = tape@;
    put_node(tape, Node::Object(fields.len()));
    let ghost s = reg.stores();
    let ghost fs = texts(fields@);
    let ghost rs = texts(row@);
    let ghost mut done: Seq<Mark> = seq![];
    let ghost want = tape_row(s, reg.open(), fs, rs, 0, seq![]);
    let ghost head = seq![Mark::Object(fields@.len())];
    proof {
        lemma_grown(marks(before), head, done, done);
    }
    let mut k: usize = 0;
    while k < fields.len()
        invariant
            k <= fields@.len(),
            fs == texts(fields@),
            rs == texts(row@),
            reg.stores() == s,
            want == tape_row(s, reg.open(), fs, rs, k as int, done),
            marks(tape@) == marks(before) + (head + done),
        decreases fields@.len() - k,
    {
        let ghost now = tape@;
        put_node(tape, Node::Key(Cow::Borrowed(fields[k])));
        let ghost key = Mark::Key(fs[k as int]);
        let ghost m = if k < rs.len() {
            tape_primitive(s, reg.open(), rs[k as int]).0
        } else {
            seq![Mark::Null]
        };
        if k < row.len() {
            emit_primitive(reg, row[k], tape);
        } else {
            put_node(tape, Node::Null);
        }
        proof {
            lemma_joined(marks(now), seq![key], m);
            lemma_grown(marks(before), head, done, seq![key] + m);
            done = done + (seq![key] + m);
        }
        k += 1;
    }
}

/// The key that a line begins with, and where it ends.
fn parse_key<'a>(content: &'a str) -> (r: Result<(&'a str, usize), String>)
    ensures
        match r {
            Ok((k, n)) => raw_leading_key(content@) == Ok::<(Text, int), Text>((k@, n as int)) && n
                <= content@.len(),
            Err(m) => raw_leading_key(content@) == Err::<(Text, int), Text>(m@),
        },
{
    let cs = chars_of(content);
    let n: usize = cs.len();
    if n > 0 && cs[0] == '"' {
        match find_quote_close(&cs, 1) {
            None => Err(owned("Unterminated quoted key")),
            Some(q) => {
                if n - q > 1 && cs[q + 1] == ':' {
                    Ok((part(content, 1, q), q + 2))
                } else {
                    Err(owned("Missing colon after key"))
                }
            },
        }
    } else {
        match position(&cs, ':') {
            Some(k) => Ok((trimmed(part(content, 0, k)), k + 1)),
            None => Err(owned("Missing colon after key")),
        }
    }
}

// ---------------------------------------------------------------------------
// Reading lines

/// Whether writing came to `want`: the nodes behind those before and the lines
/// that are left, or a message; the definitions as they were, and the
/// references that are being resolved.
spec fn ran(
    want: Out<Run>,
    got: Result<(), Text>,
    before: Seq<Node>,
    after: Seq<Node>,
    left: Seq<Line>,
    reg: SchemaRegistry,
    then: SchemaRegistry,
) -> bool {
    &&& then.stores() == reg.stores()
    &&& then.open() == want.open
    &&& match got {
        Ok(()) => want.result matches Ok(r) && marks(after) == marks(before) + r.marks && left
            == r.rest,
        Err(m) => want.result == Err::<Run, Text>(m),
    }
}

/// The outcome without its message's container.
spec fn told(r: Result<(), String>) -> Result<(), Text> {
    match r {
        Ok(()) => Ok(()),
        Err(m) => Err(m@),
    }
}

/// The nodes of the object that the lines stand for.
fn emit_object<'a>(
    reg: &mut SchemaRegistry,
    lines: &mut LineIter<'a>,
    base: usize,
    tape: &mut Vec<Node<'a>>,
) -> (r: Result<(), String>)
    ensures
        ran(
            as_object(
                tape_object(
                    old(reg).stores(),
                    old(reg).open(),
                    old(lines)@,
                    base as int,
                    seq![],
                    0,
                ),
            ),
            told(r),
            old(tape)@,
            final(tape)@,
            final(lines)@,
            *old(reg),
            *final(reg),
        ),
        r is Ok ==> final(lines)@.len() <= old(lines)@.len(),
    decreases old(lines)@.len(), 0nat,
{
    let ghost before = tape@;
    let at: usize = tape.len();
    put_node(tape, Node::Object(0));
    let mut count: usize = 0;
    let ghost s = reg.stores();
    let ghost mut done: Seq<Mark> = seq![];
    let ghost want = tape_object(s, reg.open(), lines@, base as int, seq![], 0);
    proof {
        lemma_grown(marks(before), seq![Mark::Object(0)], done, done);
    }
    loop
        invariant_except_break
            want == tape_object(s, reg.open(), lines@, base as int, done, count as nat),
        invariant
            at == before.len(),
            before == old(tape)@,
            s == old(reg).stores(),
            reg.stores() == s,
            lines@.len() <= old(lines)@.len(),
            count <= done.len(),
            marks(tape@) == marks(before) + (seq![Mark::Object(0)] + done),
            want == tape_object(
                old(reg).stores(),
                old(reg).open(),
                old(lines)@,
                base as int,
                seq![],
                0,
            ),
        ensures
            want == good(Run { marks: done, count: count as nat, rest: lines@ }, reg.open()),
        decreases lines@.len(),
    {
        let (depth, content) = match lines.peek_line() {
            Some(l) => l,
            None => {
                break;
            },
        };
        if depth < base {
            break;
        }
        lines.next_line();
        if depth == base {
            let ghost ls = lines@;
            let ghost m = tape_field(s, reg.open(), content@, ls, base as int);
            match emit_field(reg, content, lines, base, tape) {
                Ok(some) => {
                    let total: usize = tape.len();
                    proof {
                        let more = m.result->Ok_0.marks;
                        lemma_grown(marks(before), seq![Mark::Object(0)], done, more);
                        done = done + more;
                        assert(marks(tape@).len() == tape@.len());
                    }
                    if some {
                        count += 1;
                    }
                },
                Err(m) => {
                    return Err(m);
                },
            }
        }
    }
    settle(
        tape,
        at,
        Node::Object(count),
        Ghost(marks(before)),
        Ghost(Mark::Object(0)),
        Ghost(done),
    );
    Ok(())
}

/// The nodes of the entry that a line stands for with the lines behind it, and
/// whether there is one.
fn emit_field<'a>(
    reg: &mut SchemaRegistry,
    content: &'a str,
    lines: &mut LineIter<'a>,
    base: usize,
    tape: &mut Vec<Node<'a>>,
) -> (r: Result<bool, String>)
    ensures
        ran(
            tape_field(old(reg).stores(), old(reg).open(), content@, old(lines)@, base as int),
            match r {
                Ok(_) => Ok(()),
                Err(m) => Err(m@),
            },
            old(tape)@,
            final(tape)@,
            final(lines)@,
            *old(reg),
            *final(reg),
        ),
        r matches Ok(some) ==> {
            let t = tape_field(
                old(reg).stores(),
                old(reg).open(),
                content@,
                old(lines)@,
                base as int,
            ).result->Ok_0;
            t.count == (if some {
                1nat
            } else {
                0nat
            }) && (some ==> t.marks.len() >= 1)
        },
        r is Ok ==> final(lines)@.len() <= old(lines)@.len(),
    decreases old(lines)@.len(), 2nat,
{
    if let Some(header) = try_array_header(content) {
        if let Some(key) = header.key {
            let key = strip_quotes(key);
            let ghost before = tape@;
            put_node(tape, Node::Key(Cow::Borrowed(key)));
            return match emit_array_from_header(reg, &header, lines, base, tape) {
                Ok(()) => {
                    proof {
                        let m = tape_array(
                            old(reg).stores(),
                            old(reg).open(),
                            old(lines)@,
                            base as int,
                            header@,
                        ).result->Ok_0.marks;
                        lemma_joined(marks(before), seq![Mark::Key(key@)], m);
                    }
                    Ok(true)
                },
                Err(m) => Err(m),
            };
        }
    }
    match find_colon(&chars_of(content)) {
        Some(k) => match emit_key_value(reg, content, k, lines, base, tape) {
            Ok(()) => Ok(true),
            Err(m) => Err(m),
        },
        None => {
            assert(marks(tape@) =~= marks(old(tape)@) + seq![]);
            Ok(false)
        },
    }
}

/// The nodes of the entry that a line stands for, whose key ends at a colon.
fn emit_key_value<'a>(
    reg: &mut SchemaRegistry,
    content: &'a str,
    colon: usize,
    lines: &mut LineIter<'a>,
    base: usize,
    tape: &mut Vec<Node<'a>>,
) -> (r: Result<(), String>)
    requires
        colon < content@.len(),
    ensures
        ran(
            tape_key_value(
                old(reg).stores(),
                old(reg).open(),
                content@,
                colon as int,
                old(lines)@,
                base as int,
            ),
            told(r),
            old(tape)@,
            final(tape)@,
            final(lines)@,
            *old(reg),
            *final(reg),
        ),
        r is Ok ==> {
            let t = tape_key_value(
                old(reg).stores(),
                old(reg).open(),
                content@,
                colon as int,
                old(lines)@,
                base as int,
            ).result->Ok_0;
            t.count == 1 && t.marks.len() >= 1
        },
        r is Ok ==> final(lines)@.len() <= old(lines)@.len(),
    decreases old(lines)@.len(), 1nat,
{
    let cs = chars_of(content);
    let n: usize = cs.len();
    let ghost s = reg.stores();
    let ghost open = reg.open();
    let (key, end): (&'a str, usize) = if cs[0] == '"' {
        match parse_key(content) {
            Ok(found) => found,
            Err(m) => {
                return Err(m);
            },
        }
    } else {
        (trimmed(part(content, 0, colon)), colon + 1)
    };
    let ghost before = tape@;
    let ghost head = seq![Mark::Key(key@)];
    put_node(tape, Node::Key(Cow::Borrowed(key)));
    let rest = trimmed(part(content, end, n));
    if !rest.is_empty() {
        emit_inline_value(reg, rest, tape);
        proof {
            let m = tape_inline(s, open, rest@).0;
            lemma_joined(marks(before), head, m);
        }
        return Ok(());
    }
    if let Some((depth, next)) = lines.peek_line() {
        if depth > base {
            let ghost ls = lines@;
            if depth == base + 1 && item_of(next).is_some() {
                match emit_list(reg, lines, base, tape) {
                    Ok(()) => {},
                    Err(m) => {
                        return Err(m);
                    },
                }
                proof {
                    let m = as_array(tape_list(s, open, ls, base as int, seq![], 0)).result->Ok_0.marks;
                    lemma_joined(marks(before), head, m);
                }
                return Ok(());
            }
            match emit_object(reg, lines, base + 1, tape) {
                Ok(()) => {},
                Err(m) => {
                    return Err(m);
                },
            }
            proof {
                let m = as_object(tape_object(s, open, ls, base + 1, seq![], 0)).result->Ok_0.marks;
                lemma_joined(marks(before), head, m);
            }
            return Ok(());
        }
    }
    put_node(tape, Node::Object(0));
    proof {
        lemma_joined(marks(before), head, seq![Mark::Object(0)]);
    }
    Ok(())
}

/// The nodes of the array that list items stand for.
fn emit_list<'a>(
    reg: &mut SchemaRegistry,
    lines: &mut LineIter<'a>,
    base: usize,
    tape: &mut Vec<Node<'a>>,
) -> (r: Result<(), String>)
    requires
        base < usize::MAX,
    ensures
        ran(
            as_array(
                tape_list(old(reg).stores(), old(reg).open(), old(lines)@, base as int, seq![], 0),
            ),
            told(r),
            old(tape)@,
            final(tape)@,
            final(lines)@,
            *old(reg),
            *final(reg),
        ),
        r is Ok ==> final(lines)@.len() <= old(lines)@.len(),
    decreases old(lines)@.len(), 0nat,
{
    let ghost before = tape@;
    let at: usize = tape.len();
    put_node(tape, Node::Array(0));
    let mut count: usize = 0;
    let child: usize = base + 1;
    let ghost s = reg.stores();
    let ghost mut done: Seq<Mark> = seq![];
    let ghost want = tape_list(s, reg.open(), lines@, base as int, seq![], 0);
    proof {
        lemma_grown(marks(before), seq![Mark::Array(0)], done, done);
    }
    loop
        invariant_except_break
            want == tape_list(s, reg.open(), lines@, base as int, done, count as nat),
        invariant
            at == before.len(),
            child == base + 1,
            before == old(tape)@,
            s == old(reg).stores(),
            reg.stores() == s,
            lines@.len() <= old(lines)@.len(),
            count <= done.len(),
            marks(tape@) == marks(before) + (seq![Mark::Array(0)] + done),
            want == tape_list(
                old(reg).stores(),
                old(reg).open(),
                old(lines)@,
                base as int,
                seq![],
                0,
            ),
        ensures
            want == good(Run { marks: done, count: count as nat, rest: lines@ }, reg.open()),
        decreases lines@.len(),
    {
        let (depth, content) = match lines.peek_line() {
            Some(l) => l,
            None => {
                break;
            },
        };
        if depth < child {
            break;
        }
        let found: Option<&'a str> = item_of(content);
        if depth == child && found.is_none() {
            break;
        }
        lines.next_line();
        if depth == child {
            if let Some(item) = found {
                let ghost open = reg.open();
                let ghost ls = lines@;
                let ghost mut more: Seq<Mark> = tape_inline(s, open, item@).0;
                if item_is_inline(item) {
                    proof {
                        lemma_some_mark(s, open, item@);
                    }
                    emit_inline_value(reg, item, tape);
                } else {
                    proof {
                        more = tape_list_item(s, open, item@, ls, base as int).result->Ok_0.marks;
                    }
                    match emit_list_item(reg, item, lines, base, tape) {
                        Ok(()) => {},
                        Err(m) => {
                            return Err(m);
                        },
                    }
                }
                let total: usize = tape.len();
                proof {
                    lemma_grown(marks(before), seq![Mark::Array(0)], done, more);
                    done = done + more;
                    assert(marks(tape@).len() == tape@.len());
                }
                count += 1;
            }
        }
    }
    settle(
        tape,
        at,
        Node::Array(count),
        Ghost(marks(before)),
        Ghost(Mark::Array(0)),
        Ghost(done),
    );
    Ok(())
}

/// The nodes of the array that a header announces.
fn emit_array_from_header<'a>(
    reg: &mut SchemaRegistry,
    header: &ArrayHeader<'a>,
    lines: &mut LineIter<'a>,
    base: usize,
    tape: &mut Vec<Node<'a>>,
) -> (r: Result<(), String>)
    ensures
        ran(
            tape_array(old(reg).stores(), old(reg).open(), old(lines)@, base as int, header@),
            told(r),
            old(tape)@,
            final(tape)@,
            final(lines)@,
            *old(reg),
            *final(reg),
        ),
        r is Ok ==> final(lines)@.len() <= old(lines)@.len(),
    decreases old(lines)@.len(), 1nat,
{
    if header.length == 0 {
        let ghost before = tape@;
        put_node(tape, Node::Array(0));
        return Ok(());
    }
    match &header.fields {
        Some(fields) => {
            let names = strip_all(fields);
            emit_tabular_array(reg, lines, base, header.length, &names, header.delimiter, tape);
            Ok(())
        },
        None => match header.inline_values {
            Some(x) => {
                emit_delimited_values(reg, x, header.delimiter, tape);
                Ok(())
            },
            None => emit_expanded_array(reg, lines, base, header.length, tape),
        },
    }
}

/// The nodes of the table that lines stand for.
fn emit_tabular_array<'a>(
    reg: &mut SchemaRegistry,
    lines: &mut LineIter<'a>,
    base: usize,
    expected: usize,
    fields: &Vec<&'a str>,
    d: char,
    tape: &mut Vec<Node<'a>>,
)
    ensures
        ({
            let (t, then) = tape_table(
                old(reg).stores(),
                old(reg).open(),
                old(lines)@,
                base as int,
                expected as nat,
                texts(fields@),
                d,
                seq![],
                0,
            );
            wrote(
                (seq![Mark::Array(t.count)] + t.marks, then),
                old(tape)@,
                final(tape)@,
                *old(reg),
                *final(reg),
            ) && final(lines)@ == t.rest
        }),
        final(lines)@.len() <= old(lines)@.len(),
{
    let ghost before = tape@;
    let at: usize = tape.len();
    put_node(tape, Node::Array(0));
    let mut count: usize = 0;
    let ghost s = reg.stores();
    let ghost fs = texts(fields@);
    let ghost mut done: Seq<Mark> = seq![];
    let ghost want = tape_table(
        s,
        reg.open(),
        lines@,
        base as int,
        expected as nat,
        fs,
        d,
        seq![],
        0,
    );
    proof {
        lemma_grown(marks(before), seq![Mark::Array(0)], done, done);
    }
    loop
        invariant_except_break
            want == tape_table(
                s,
                reg.open(),
                lines@,
                base as int,
                expected as nat,
                fs,
                d,
                done,
                count as nat,
            ),
        invariant
            at == before.len(),
            s == old(reg).stores(),
            fs == texts(fields@),
            reg.stores() == s,
            lines@.len() <= old(lines)@.len(),
            count <= expected,
            marks(tape@) == marks(before) + (seq![Mark::Array(0)] + done),
        ensures
            want == (Run { marks: done, count: count as nat, rest: lines@ }, reg.open()),
        decreases lines@.len(),
    {
        let (depth, content) = match lines.peek_line() {
            Some(l) => l,
            None => {
                break;
            },
        };
        if count >= expected || depth == 0 || depth - 1 != base {
            break;
        }
        lines.next_line();
        let ghost m = seq![Mark::Object(fs.len())] + tape_row(
            s,
            reg.open(),
            fs,
            cells(content@, d),
            0,
            seq![],
        ).0;
        emit_row(reg, fields, content, d, tape);
        proof {
            lemma_grown(marks(before), seq![Mark::Array(0)], done, m);
            done = done + m;
        }
        count += 1;
    }
    settle(
        tape,
        at,
        Node::Array(count),
        Ghost(marks(before)),
        Ghost(Mark::Array(0)),
        Ghost(done),
    );
}

/// The nodes of the array whose items stand below a header.
fn emit_expanded_array<'a>(
    reg: &mut SchemaRegistry,
    lines: &mut LineIter<'a>,
    base: usize,
    expected: usize,
    tape: &mut Vec<Node<'a>>,
) -> (r: Result<(), String>)
    ensures
        ran(
            as_array(
                tape_expanded(
                    old(reg).stores(),
                    old(reg).open(),
                    old(lines)@,
                    base as int,
                    expected as nat,
                    seq![],
                    0,
                ),
            ),
            told(r),
            old(tape)@,
            final(tape)@,
            final(lines)@,
            *old(reg),
            *final(reg),
        ),
        r is Ok ==> final(lines)@.len() <= old(lines)@.len(),
    decreases old(lines)@.len(), 0nat,
{
    let ghost before = tape@;
    let at: usize = tape.len();
    put_node(tape, Node::Array(0));
    let mut count: usize = 0;
    let ghost s = reg.stores();
    let ghost mut done: Seq<Mark> = seq![];
    let ghost want = tape_expanded(
        s,
        reg.open(),
        lines@,
        base as int,
        expected as nat,
        seq![],
        0,
    );
    proof {
        lemma_grown(marks(before), seq![Mark::Array(0)], done, done);
    }
    loop
        invariant_except_break
            want == tape_expanded(
                s,
                reg.open(),
                lines@,
                base as int,
                expected as nat,
                done,
                count as nat,
            ),
        invariant
            at == before.len(),
            before == old(tape)@,
            s == old(reg).stores(),
            reg.stores() == s,
            lines@.len() <= old(lines)@.len(),
            count <= expected,
            marks(tape@) == marks(before) + (seq![Mark::Array(0)] + done),
            want == tape_expanded(
                old(reg).stores(),
                old(reg).open(),
                old(lines)@,
                base as int,
                expected as nat,
                seq![],
                0,
            ),
        ensures
            want == good(Run { marks: done, count: count as nat, rest: lines@ }, reg.open()),
        decreases lines@.len(),
    {
        let (depth, content) = match lines.peek_line() {
            Some(l) => l,
            None => {
                break;
            },
        };
        if count >= expected || depth == 0 || depth - 1 != base {
            break;
        }
        lines.next_line();
        if let Some(item) = item_of(content) {
            let ghost open = reg.open();
            let ghost ls = lines@;
            let ghost mut more: Seq<Mark> = seq![];
            let unkeyed: Option<ArrayHeader<'a>> = match try_array_header(item) {
                Some(header) if header.key.is_none() => Some(header),
                _ => None,
            };
            if let Some(header) = unkeyed {
                match header.inline_values {
                    Some(x) => {
                        proof {
                            more = tape_delimited(s, open, x@, header.delimiter).0;
                        }
                        emit_delimited_values(reg, x, header.delimiter, tape);
                    },
                    None => {
                        let floor: usize = item_floor(lines, base);
                        proof {
                            more = tape_array(s, open, ls, floor as int, header@).result->Ok_0.marks;
                        }
                        match emit_array_from_header(reg, &header, lines, floor, tape) {
                            Ok(()) => {},
                            Err(m) => {
                                return Err(m);
                            },
                        }
                    },
                }
            } else if item_is_inline(item) {
                proof {
                    more = tape_inline(s, open, item@).0;
                }
                emit_inline_value(reg, item, tape);
            } else {
                proof {
                    more = tape_list_item(s, open, item@, ls, base as int).result->Ok_0.marks;
                }
                match emit_list_item(reg, item, lines, base, tape) {
                    Ok(()) => {},
                    Err(m) => {
                        return Err(m);
                    },
                }
            }
            proof {
                lemma_grown(marks(before), seq![Mark::Array(0)], done, more);
                done = done + more;
            }
            count += 1;
        }
    }
    settle(
        tape,
        at,
        Node::Array(count),
        Ghost(marks(before)),
        Ghost(Mark::Array(0)),
        Ghost(done),
    );
    Ok(())
}

/// The depth below which the lines of what a list item begins with stand.
fn item_floor<'a>(lines: &mut LineIter<'a>, base: usize) -> (r: usize)
    requires
        base < usize::MAX,
    ensures
        final(lines)@ == old(lines)@,
        r == item_base(base + 1, depth_at(old(lines)@, 0)),
        depth_at(old(lines)@, 0) > base + 1 ==> r < depth_at(old(lines)@, 0) <= usize::MAX,
{
    let above: usize = base + 1;
    if let Some((depth, _)) = lines.peek_line() {
        if depth > above && depth - 1 > above {
            return above + 1;
        }
    }
    above
}

/// The nodes of the value of the entry that a list item begins with.
fn emit_item_value<'a>(
    reg: &mut SchemaRegistry,
    rest: &'a str,
    lines: &mut LineIter<'a>,
    base: usize,
    tape: &mut Vec<Node<'a>>,
) -> (r: Result<(), String>)
    requires
        base < usize::MAX,
    ensures
        ran(
            tape_item_value(old(reg).stores(), old(reg).open(), rest@, old(lines)@, base as int),
            told(r),
            old(tape)@,
            final(tape)@,
            final(lines)@,
            *old(reg),
            *final(reg),
        ),
        r is Ok ==> final(lines)@.len() <= old(lines)@.len(),
    decreases old(lines)@.len(), 1nat,
{
    if !rest.is_empty() {
        emit_inline_value(reg, rest, tape);
        return Ok(());
    }
    let above: usize = base + 1;
    if let Some((depth, _)) = lines.peek_line() {
        if depth > above {
            let floor: usize = item_floor(lines, base);
            return emit_object(reg, lines, floor + 1, tape);
        }
    }
    put_node(tape, Node::Object(0));
    Ok(())
}

/// The nodes of the entry that a list item begins with, and whether there is
/// one.
fn emit_item_head<'a>(
    reg: &mut SchemaRegistry,
    item: &'a str,
    lines: &mut LineIter<'a>,
    base: usize,
    tape: &mut Vec<Node<'a>>,
) -> (r: Result<bool, String>)
    requires
        base < usize::MAX,
    ensures
        ran(
            tape_item_head(old(reg).stores(), old(reg).open(), item@, old(lines)@, base as int),
            match r {
                Ok(_) => Ok(()),
                Err(m) => Err(m@),
            },
            old(tape)@,
            final(tape)@,
            final(lines)@,
            *old(reg),
            *final(reg),
        ),
        r matches Ok(some) ==> {
            let t = tape_item_head(
                old(reg).stores(),
                old(reg).open(),
                item@,
                old(lines)@,
                base as int,
            ).result->Ok_0;
            t.count == (if some {
                1nat
            } else {
                0nat
            }) && (some ==> t.marks.len() >= 1)
        },
        r is Ok ==> final(lines)@.len() <= old(lines)@.len(),
    decreases old(lines)@.len(), 2nat,
{
    let ghost s = reg.stores();
    let ghost open = reg.open();
    let ghost before = tape@;
    let ghost ls = lines@;
    let key: &'a str;
    let done: Result<(), String>;
    let ghost mut want: Out<Run> = bad(seq![], seq![]);
    match try_array_header(item) {
        Some(header) => match header.key {
            Some(k) => {
                key = strip_quotes(k);
                put_node(tape, Node::Key(Cow::Borrowed(key)));
                let floor: usize = item_floor(lines, base);
                done = emit_array_from_header(reg, &header, lines, floor, tape);
                proof {
                    want = tape_array(s, open, ls, floor as int, header@);
                }
            },
            None => {
                assert(marks(tape@) =~= marks(before) + seq![]);
                return Ok(false);
            },
        },
        None => match parse_key(item) {
            Ok((k, end)) => {
                key = k;
                put_node(tape, Node::Key(Cow::Borrowed(key)));
                let n: usize = chars_of(item).len();
                let rest = trimmed(part(item, end, n));
                done = emit_item_value(reg, rest, lines, base, tape);
                proof {
                    want = tape_item_value(s, open, rest@, ls, base as int);
                }
            },
            Err(m) => {
                return Err(m);
            },
        },
    }
    match done {
        Ok(()) => {
            proof {
                lemma_joined(marks(before), seq![Mark::Key(key@)], want.result->Ok_0.marks);
            }
            Ok(true)
        },
        Err(m) => Err(m),
    }
}

/// The nodes of the object that a list item stands for.
fn emit_list_item<'a>(
    reg: &mut SchemaRegistry,
    item: &'a str,
    lines: &mut LineIter<'a>,
    base: usize,
    tape: &mut Vec<Node<'a>>,
) -> (r: Result<(), String>)
    requires
        base < usize::MAX,
    ensures
        ran(
            tape_list_item(old(reg).stores(), old(reg).open(), item@, old(lines)@, base as int),
            told(r),
            old(tape)@,
            final(tape)@,
            final(lines)@,
            *old(reg),
            *final(reg),
        ),
        r is Ok ==> final(lines)@.len() <= old(lines)@.len(),
        r is Ok ==> tape_list_item(
            old(reg).stores(),
            old(reg).open(),
            item@,
            old(lines)@,
            base as int,
        ).result->Ok_0.marks.len() >= 1,
    decreases old(lines)@.len(), 3nat,
{
    let ghost before = tape@;
    let at: usize = tape.len();
    put_node(tape, Node::Object(0));
    let mut count: usize = 0;
    let above: usize = base + 1;
    let ghost s = reg.stores();
    let ghost first = tape_item_head(s, reg.open(), item@, lines@, base as int);
    match emit_item_head(reg, item, lines, base, tape) {
        Ok(some) => {
            if some {
                count = 1;
            }
        },
        Err(m) => {
            return Err(m);
        },
    }
    let ghost mut done: Seq<Mark> = first.result->Ok_0.marks;
    let ghost want = tape_more(s, reg.open(), lines@, base + 2, done, count as nat);
    loop
        invariant_except_break
            want == tape_more(s, reg.open(), lines@, base + 2, done, count as nat),
        invariant
            at == before.len(),
            above == base + 1,
            before == old(tape)@,
            s == old(reg).stores(),
            reg.stores() == s,
            lines@.len() <= old(lines)@.len(),
            count <= done.len(),
            marks(tape@) == marks(before) + (seq![Mark::Object(0)] + done),
            as_object(want) == tape_list_item(
                old(reg).stores(),
                old(reg).open(),
                item@,
                old(lines)@,
                base as int,
            ),
        ensures
            want == good(Run { marks: done, count: count as nat, rest: lines@ }, reg.open()),
        decreases lines@.len(),
    {
        let (depth, content) = match lines.peek_line() {
            Some(l) => l,
            None => {
                break;
            },
        };
        if depth <= above {
            break;
        }
        if depth - 1 == above && item_of(content).is_some() {
            break;
        }
        lines.next_line();
        if depth - 1 == above {
            let ghost m = tape_field(s, reg.open(), content@, lines@, base + 2);
            match emit_field(reg, content, lines, above + 1, tape) {
                Ok(some) => {
                    let total: usize = tape.len();
                    proof {
                        let more = m.result->Ok_0.marks;
                        lemma_grown(marks(before), seq![Mark::Object(0)], done, more);
                        done = done + more;
                        assert(marks(tape@).len() == tape@.len());
                    }
                    if some {
                        count += 1;
                    }
                },
                Err(m) => {
                    return Err(m);
                },
            }
        }
    }
    settle(
        tape,
        at,
        Node::Object(count),
        Ghost(marks(before)),
        Ghost(Mark::Object(0)),
        Ghost(done),
    );
    Ok(())
}

// ---------------------------------------------------------------------------
// The decoder

/// Takes in the definitions of a document.
fn prescan_schema_defs(reg: &mut SchemaRegistry, input: &str)
    ensures
        known(*final(reg)) == prescanned(known(*old(reg)), lines(input@), 0),
{
    let ls = line_list(input);
    let ghost ts = texts(ls@);
    let ghost want = prescanned(known(*reg), ts, 0);
    let mut i: usize = 0;
    while i < ls.len()
        invariant
            i <= ls@.len(),
            ts == texts(ls@),
            want == prescanned(known(*reg), ts, i as int),
        decreases ls@.len() - i,
    {
        let t = trimmed(ls[i]);
        if let Some(d) = line_definition(t) {
            proof {
                lemma_definition_kind(t@);
            }
            take_definition(reg, t, d);
        }
        i += 1;
    }
}

/// The nodes of a tape, or a message.
pub open spec fn as_marks(r: Result<Tape, String>) -> Result<Seq<Mark>, Text> {
    match r {
        Ok(t) => Ok(marks(t.nodes@)),
        Err(m) => Err(m@),
    }
}

/// Reads documents into tapes. Definitions that it reads stay known to it.
pub struct TapeDecoder {
    indent: usize,
    indent_auto_detect: bool,
    registry: SchemaRegistry,
}

impl Default for TapeDecoder {
    /// A decoder that knows no definitions and finds the indentation out.
    fn default() -> (r: TapeDecoder)
        ensures
            r@ == new_setting(),
    {
        TapeDecoder::new()
    }
}

impl View for TapeDecoder {
    type V = Setting;

    closed spec fn view(&self) -> Setting {
        Setting {
            indent: self.indent as nat,
            auto: self.indent_auto_detect,
            known: known(self.registry),
        }
    }
}

impl TapeDecoder {
    /// A decoder that knows no definitions and finds the indentation out.
    pub fn new() -> (r: TapeDecoder)
        ensures
            r@ == new_setting(),
    {
        TapeDecoder { indent: 1, indent_auto_detect: true, registry: SchemaRegistry::new() }
    }

    /// The nodes of the value that a document holds. Definitions that stand in
    /// it are known from then on, unless it is minified. The nodes of a minified
    /// document are those of its value, with the texts that the value holds.
    pub fn decode<'a>(&mut self, input: &'a str) -> (r: Result<Tape<'a>, String>)
        ensures
            (as_marks(r), final(self)@) == tape_step(old(self)@, input@),
    {
        let mut nodes: Vec<Node<'a>> = Vec::new();
        assert(marks(nodes@) =~= seq![]);
        if !has_char(input, '\n') && has_char(input, ';') {
            let mut whole: Decoder = Decoder::new();
            let v: Value = match whole.decode(input) {
                Ok(v) => v,
                Err(m) => {
                    return Err(m);
                },
            };
            emit_value(&v, &mut nodes);
            assert(Seq::<Mark>::empty() + flat(v@) =~= flat(v@));
            return Ok(Tape { nodes });
        }
        prescan_schema_defs(&mut self.registry, input);
        let mut lines: LineIter<'a> = LineIter::new(input, self.indent);
        if self.indent_auto_detect {
            lines.auto_detect_indent(input);
            self.indent = lines.indent;
        }
        match emit_document(&mut self.registry, lines, &mut nodes) {
            Ok(()) => Ok(Tape { nodes }),
            Err(m) => Err(m),
        }
    }
}

/// Whether writing a document came to `want`.
spec fn wrote_document(
    want: Out<Seq<Mark>>,
    got: Result<(), String>,
    nodes: Seq<Node>,
    reg: SchemaRegistry,
    then: SchemaRegistry,
) -> bool {
    &&& then.stores() == reg.stores()
    &&& then.open() == want.open
    &&& match got {
        Ok(()) => want.result == Ok::<Seq<Mark>, Text>(marks(nodes)),
        Err(m) => want.result == Err::<Seq<Mark>, Text>(m@),
    }
}

/// The nodes of the array that a document without a key stands for.
fn emit_root_array<'a>(
    reg: &mut SchemaRegistry,
    header: &ArrayHeader<'a>,
    lines: LineIter<'a>,
    base: usize,
    tape: &mut Vec<Node<'a>>,
) -> (r: Result<(), String>)
    requires
        old(tape)@.len() == 0,
    ensures
        wrote_document(
            root_array(old(reg).stores(), old(reg).open(), lines@, base as int, header@),
            r,
            final(tape)@,
            *old(reg),
            *final(reg),
        ),
{
    let mut rest: LineIter<'a> = lines;
    let ghost want = tape_array(reg.stores(), reg.open(), rest@, base as int, header@);
    let r = emit_array_from_header(reg, header, &mut rest, base, tape);
    proof {
        reveal(root_array);
        if r is Ok {
            let m = want.result->Ok_0.marks;
            assert(marks(old(tape)@) + m =~= m);
        }
    }
    r
}

/// The nodes of the object that all lines stand for.
fn emit_root<'a>(reg: &mut SchemaRegistry, lines: LineIter<'a>, tape: &mut Vec<Node<'a>>) -> (r: Result<
    (),
    String,
>)
    requires
        old(tape)@.len() == 0,
    ensures
        wrote_document(
            tape_root(old(reg).stores(), old(reg).open(), lines@),
            r,
            final(tape)@,
            *old(reg),
            *final(reg),
        ),
{
    let mut rest: LineIter<'a> = lines;
    let ghost ls = rest@;
    let ghost before = tape@;
    let r = emit_object(reg, &mut rest, 0, tape);
    proof {
        reveal(tape_root);
        if r is Ok {
            let m = as_object(tape_object(old(reg).stores(), old(reg).open(), ls, 0, seq![], 0)).result->Ok_0.marks;
            assert(marks(before) + m =~= m);
        }
    }
    r
}

/// The nodes of the object that the lines `now` stand for, where the first has a
/// colon, or of the token that is the only one; else of the object that the
/// lines `again` stand for.
fn emit_fields_or_token<'a>(
    reg: &mut SchemaRegistry,
    lines: LineIter<'a>,
    again: LineIter<'a>,
    tape: &mut Vec<Node<'a>>,
) -> (r: Result<(), String>)
    requires
        old(tape)@.len() == 0,
        lines@.len() > 0,
    ensures
        wrote_document(
            fields_or_token(old(reg).stores(), old(reg).open(), lines@, again@),
            r,
            final(tape)@,
            *old(reg),
            *final(reg),
        ),
{
    proof {
        reveal(fields_or_token);
    }
    let mut now: LineIter<'a> = lines;
    let ghost s = reg.stores();
    let ghost open = reg.open();
    assert(marks(tape@) =~= seq![]);
    let content: &'a str = match now.peek_line() {
        Some((_, c)) => c,
        None => "",
    };
    if holds_colon(content) {
        return emit_root(reg, now, tape);
    }
    now.next_line();
    emit_primitive(reg, content, tape);
    if now.peek_line().is_none() {
        proof {
            let m = tape_primitive(s, open, content@).0;
            assert(marks(old(tape)@) + m =~= m);
        }
        return Ok(());
    }
    tape.clear();
    emit_root(reg, again, tape)
}

/// The nodes of the value that the lines of a document stand for.
fn emit_document<'a>(reg: &mut SchemaRegistry, lines: LineIter<'a>, tape: &mut Vec<Node<'a>>) -> (r: Result<
    (),
    String,
>)
    requires
        old(tape)@.len() == 0,
        lines.peeked is None,
    ensures
        wrote_document(
            tape_document(old(reg).stores(), old(reg).open(), lines@),
            r,
            final(tape)@,
            *old(reg),
            *final(reg),
        ),
{
    let again: LineIter<'a> = LineIter::new(lines.remaining, lines.indent);
    let mut now: LineIter<'a> = lines;
    let ghost all = now@;
    let ghost s = reg.stores();
    let ghost open = reg.open();
    assert(marks(tape@) =~= seq![]);
    let (depth, first) = match now.peek_line() {
        Some(l) => l,
        None => {
            put_node(tape, Node::Object(0));
            assert(marks(tape@) =~= seq![Mark::Object(0)]);
            return Ok(());
        },
    };
    if same_text(first, "{}") {
        now.next_line();
        if now.peek_line().is_none() {
            put_node(tape, Node::Object(0));
            assert(marks(tape@) =~= seq![Mark::Object(0)]);
            return Ok(());
        }
    }
    if let Some(header) = try_array_header(first) {
        if header.key.is_none() {
            proof {
                reveal(array_header);
                reveal_strlit("{}");
                lemma_behind_quotes(first@);
                lemma_find_from(first@, ':', behind_quotes(first@));
            }
            now.next_line();
            return emit_root_array(reg, &header, now, depth, tape);
        }
    }
    emit_fields_or_token(reg, now, again, tape)
}

} // verus!
