//! Documents as lines: what a document that is laid out says, on lines or on
//! one line.

use vstd::prelude::*;
use crate::decoder::{decode_text, document, is_minified, new_setting};
use crate::encoder::{layout, lemma_layout_concat, line_text, spaces};
use crate::lines::{
    define, definition_kind, depth_behind, depth_of, detected_indent, first_indent, is_silent,
    levels_opened, read_lines, read_segments, second_indent, segments, semi_at, semis_end, Known,
    Line, Segment,
};
use crate::minifier::{
    expanded, expected_depth, levels_begun, line_indent, minified, on_one_line, segment_lines,
    semis, semis_before,
};
use crate::readback::{is_trim, lemma_place_same, lemma_trim_of_trim, place_at};
use crate::scan::{outside, step};
use crate::text::{
    drop_return, ends_with, find, indentation, is_space, lemma_find_at, lemma_find_from,
    lemma_rfind_before, lines, starts_with, trim, trim_end, trim_start, Text,
};
use crate::value::Val;

verus! {

// ---------------------------------------------------------------------------
// Lines that are laid out

/// Whether `t` can stand on a line: it is not empty, has no white space around
/// it and no newline in it.
pub open spec fn is_line(t: Text) -> bool {
    is_trim(t) && !t.contains('\n')
}

/// Whether a line can be laid out. A comment stands at the margin.
pub open spec fn fits(l: Line) -> bool {
    l.depth >= 0 && is_line(l.text) && (l.text[0] == '#' ==> l.depth == 0)
}

/// Whether a line is empty.
pub open spec fn is_gap(l: Line) -> bool {
    l.depth == 0 && l.text.len() == 0
}

/// Whether all lines can be laid out. Empty lines may stand between others.
pub open spec fn all_lines(l: Seq<Line>) -> bool {
    &&& forall|i: int| 0 <= i < l.len() ==> fits(#[trigger] l[i]) || is_gap(l[i])
    &&& l.len() > 0 ==> !is_gap(l.last())
}

/// The texts of lines that are laid out.
pub open spec fn line_texts(l: Seq<Line>, indent: nat) -> Seq<Text> {
    Seq::new(l.len(), |i: int| line_text(l[i], indent))
}

/// A line as text: spaces and the text.
pub proof fn lemma_line_text(l: Line, indent: nat)
    requires
        l.depth >= 0,
        is_line(l.text),
    ensures
        ({
            let t = line_text(l, indent);
            &&& t.len() == indent * l.depth + l.text.len()
            &&& indent * l.depth >= 0
            &&& !t.contains('\n')
            &&& t.last() == l.text.last()
            &&& indentation(t) == indent * l.depth
            &&& t[indent * l.depth] == l.text[0]
            &&& trim(t) == l.text
        }),
{
    let n = indent * l.depth;
    assert(n >= 0) by (nonlinear_arith)
        requires
            n == indent * l.depth,
            l.depth >= 0,
    ;
    let t = line_text(l, indent);
    assert forall|j: int| 0 <= j < t.len() implies t[j] != '\n' by {
        if j >= n {
            assert(t[j] == l.text[j - n]);
        }
    }
    lemma_indentation(l.text, n);
    assert(t == spaces(n) + l.text);
    lemma_trim_spaces(l.text, n);
}

/// An empty line as text.
pub proof fn lemma_gap(l: Line, indent: nat)
    requires
        is_gap(l),
    ensures
        line_text(l, indent).len() == 0,
        trim(line_text(l, indent)).len() == 0,
        indentation(line_text(l, indent)) == 0,
{
    assert(indent * 0int == 0) by (nonlinear_arith);
    lemma_trim_bounds(line_text(l, indent));
}

/// The indentation of a text behind spaces.
proof fn lemma_indentation(t: Text, n: int)
    requires
        n >= 0,
        is_trim(t),
    ensures
        indentation(spaces(n) + t) == n,
    decreases n,
{
    let s = spaces(n) + t;
    if n > 0 {
        assert(s.subrange(1, s.len() as int) =~= spaces(n - 1) + t);
        lemma_indentation(t, n - 1);
    } else {
        assert(s =~= t);
    }
}

/// Spaces before a text are trimmed.
proof fn lemma_trim_spaces(t: Text, n: int)
    requires
        n >= 0,
        is_trim(t),
    ensures
        trim_start(spaces(n) + t) == t,
        trim(spaces(n) + t) == t,
    decreases n,
{
    let s = spaces(n) + t;
    if n > 0 {
        assert(s.subrange(1, s.len() as int) =~= spaces(n - 1) + t);
        lemma_trim_spaces(t, n - 1);
    } else {
        assert(s =~= t);
        lemma_trim_of_trim(t);
    }
}

/// The first line of a layout and what is behind it.
pub proof fn lemma_layout_first(l: Seq<Line>, indent: nat)
    requires
        l.len() >= 2,
    ensures
        layout(l, indent) == line_text(l[0], indent) + seq!['\n'] + layout(l.drop_first(), indent),
{
    assert(l =~= seq![l[0]] + l.drop_first());
    lemma_layout_concat(seq![l[0]], l.drop_first(), indent);
    assert(layout(seq![l[0]], indent) == line_text(l[0], indent));
}

/// The lines of a layout.
pub proof fn lemma_lines_of_layout(l: Seq<Line>, indent: nat)
    requires
        all_lines(l),
    ensures
        lines(layout(l, indent)) == line_texts(l, indent),
    decreases l.len(),
{
    let s = layout(l, indent);
    if l.len() == 0 {
        assert(line_texts(l, indent) =~= seq![]);
    } else {
        let first = line_text(l[0], indent);
        assert(fits(l[0]) || is_gap(l[0]));
        if is_gap(l[0]) {
            lemma_gap(l[0], indent);
        } else {
            lemma_line_text(l[0], indent);
        }
        lemma_find_from(s, '\n', 0);
        if l.len() == 1 {
            assert(s == first);
            assert(line_texts(l, indent) =~= seq![first]);
        } else {
            let rest = l.drop_first();
            let more = layout(rest, indent);
            lemma_layout_first(l, indent);
            assert forall|i: int| 0 <= i < rest.len() implies fits(#[trigger] rest[i]) || is_gap(
                rest[i],
            ) by {
                assert(rest[i] == l[i + 1]);
            }
            lemma_lines_of_layout(rest, indent);
            let k = first.len() as int;
            assert(s[k] == '\n');
            assert(forall|j: int| 0 <= j < k ==> s[j] == first[j]);
            lemma_find_at(s, '\n', k);
            assert(s.subrange(0, k) =~= first);
            assert(s.subrange(k + 1, s.len() as int) =~= more);
            assert(first.len() > 0 ==> !is_space(first.last()));
            assert(line_texts(l, indent) =~= seq![first] + line_texts(rest, indent));
        }
    }
}

// ---------------------------------------------------------------------------
// How deep a reader takes lines to stand

/// Whether no line before line `i` is indented.
pub open spec fn flat_before(l: Seq<Line>, i: int) -> bool {
    forall|j: int| 0 <= j < i ==> (#[trigger] l[j]).depth == 0
}

/// Whether the first line that is indented stands one level deep, and none
/// before the first.
pub open spec fn begins_flat(l: Seq<Line>) -> bool {
    &&& l.len() > 0 ==> l[0].depth == 0
    &&& forall|i: int|
        0 <= i < l.len() && flat_before(l, i) && (#[trigger] l[i]).depth > 0 ==> l[i].depth == 1
}

/// The first indentation of a layout is that of the first line that is indented.
proof fn lemma_first_indent(l: Seq<Line>, indent: nat, i: int)
    requires
        all_lines(l),
        indent >= 1,
        begins_flat(l),
        0 <= i <= l.len(),
        flat_before(l, i),
    ensures
        match first_indent(line_texts(l, indent), i) {
            Some(n) => n == indent,
            None => flat_before(l, l.len() as int),
        },
    decreases l.len() - i,
{
    if i < l.len() {
        assert(fits(l[i]) || is_gap(l[i]));
        assert(line_texts(l, indent)[i] == line_text(l[i], indent));
        if is_gap(l[i]) {
            lemma_gap(l[i], indent);
        } else {
            lemma_line_text(l[i], indent);
        }
        if l[i].depth > 0 {
            assert(l[i].depth == 1);
            assert(indent * 1 == indent) by (nonlinear_arith);
        } else {
            assert(indent * 0int == 0) by (nonlinear_arith);
            lemma_first_indent(l, indent, i + 1);
        }
    }
}

/// A depth is found again in the spaces.
proof fn lemma_depth_of(indent: nat, depth: int)
    requires
        indent >= 1,
        depth >= 0,
    ensures
        depth_of((indent * depth) as nat, indent) == depth,
        indent * depth >= 0,
{
    assert(indent * depth >= 0) by (nonlinear_arith)
        requires
            depth >= 0,
    ;
    assert((indent * depth) / (indent as int) == depth) by (nonlinear_arith)
        requires
            indent >= 1,
            depth >= 0,
    ;
}

/// The number of spaces that a reader finds out gives the lines of a layout the
/// depths that they have; so does the one that a minifier finds out.
pub proof fn lemma_detected(l: Seq<Line>, indent: nat)
    requires
        all_lines(l),
        indent >= 1,
        begins_flat(l),
        l.len() > 0,
        !is_gap(l[0]),
    ensures
        detected_indent(layout(l, indent), 1) == line_indent(line_texts(l, indent)),
        forall|i: int|
            0 <= i < l.len() ==> depth_of(
                (indent * (#[trigger] l[i]).depth) as nat,
                line_indent(line_texts(l, indent)),
            ) == l[i].depth,
{
    let s = layout(l, indent);
    let ts = line_texts(l, indent);
    lemma_lines_of_layout(l, indent);
    lemma_first_indent(l, indent, 0);
    let w = line_indent(ts);
    assert forall|i: int| 0 <= i < l.len() implies depth_of(
        (indent * (#[trigger] l[i]).depth) as nat,
        w,
    ) == l[i].depth by {
        assert(fits(l[i]) || is_gap(l[i]));
        lemma_depth_of(indent, l[i].depth);
        if first_indent(ts, 0) is None {
            assert(l[i].depth == 0);
            assert(indent * 0int == 0) by (nonlinear_arith);
        }
    }
    assert(fits(l[0]));
    lemma_line_text(l[0], indent);
    lemma_find_from(s, '\n', 0);
    if l.len() >= 2 {
        let first = line_text(l[0], indent);
        let rest = l.drop_first();
        lemma_layout_first(l, indent);
        let k = first.len() as int;
        assert(s[k] == '\n');
        assert(forall|j: int| 0 <= j < k ==> s[j] == first[j]);
        lemma_find_at(s, '\n', k);
        let after = s.subrange(k + 1, s.len() as int);
        assert(after =~= layout(rest, indent));
        assert(fits(l[1]) || is_gap(l[1]));
        let second = line_text(l[1], indent);
        assert(rest[0] == l[1]);
        if is_gap(l[1]) {
            lemma_gap(l[1], indent);
            lemma_layout_first(rest, indent);
            assert(after[0] == '\n');
        } else {
            lemma_line_text(l[1], indent);
            lemma_layout_begins(rest, indent);
            assert(indentation(after) == indent * l[1].depth);
        }
        if l[1].depth > 0 {
            assert(flat_before(l, 1));
            assert(l[1].depth == 1);
            assert(indent * 1 == indent) by (nonlinear_arith);
            assert(after[indent as int] == l[1].text[0]);
            assert(second_indent(s) == Some(indent));
            assert(ts[0] == first);
            assert(ts[1] == second);
            assert(indent * 0int == 0) by (nonlinear_arith);
            reveal_with_fuel(first_indent, 3);
            assert(first_indent(ts, 0) == Some(indent));
        } else {
            assert(indent * 0int == 0) by (nonlinear_arith);
            assert(second_indent(s) is None);
        }
    } else {
        assert(second_indent(s) is None);
    }
}

/// A layout begins with its first line.
proof fn lemma_layout_begins(l: Seq<Line>, indent: nat)
    requires
        l.len() > 0,
        fits(l[0]),
    ensures
        ({
            let s = layout(l, indent);
            let first = line_text(l[0], indent);
            &&& s.len() >= first.len()
            &&& s.subrange(0, first.len() as int) == first
            &&& indentation(s) == indent * l[0].depth
            &&& s[indent * l[0].depth] == l[0].text[0]
        }),
{
    let s = layout(l, indent);
    let first = line_text(l[0], indent);
    lemma_line_text(l[0], indent);
    if l.len() >= 2 {
        lemma_layout_first(l, indent);
    }
    assert(s.subrange(0, first.len() as int) =~= first);
    lemma_indentation_prefix(s, first);
    assert(s[indent * l[0].depth] == first[indent * l[0].depth]);
}

/// The indentation of a text is that of its beginning, where that is not all
/// spaces.
proof fn lemma_indentation_prefix(s: Text, p: Text)
    requires
        p.len() <= s.len(),
        s.subrange(0, p.len() as int) == p,
        indentation(p) < p.len(),
    ensures
        indentation(s) == indentation(p),
    decreases p.len(),
{
    assert(s[0] == p[0]);
    if p[0] == ' ' {
        let s2 = s.subrange(1, s.len() as int);
        let p2 = p.subrange(1, p.len() as int);
        assert(s2.subrange(0, p2.len() as int) =~= p2);
        lemma_indentation_prefix(s2, p2);
    }
}

// ---------------------------------------------------------------------------
// What lines say

/// What is known, and the lines that are left behind `done`, once the lines `l`
/// have been read. Definitions are taken in, directives are left out.
pub open spec fn taken(k: Known, l: Seq<Line>, done: Seq<Line>) -> (Known, Seq<Line>)
    decreases l.len(),
{
    if l.len() == 0 {
        (k, done)
    } else {
        let t = l[0].text;
        let rest = l.drop_first();
        if is_silent(t) {
            taken(k, rest, done)
        } else {
            match definition_kind(t) {
                Some(d) => taken(define(k, t, d), rest, done),
                None => taken(k, rest, done.push(l[0])),
            }
        }
    }
}

/// The lines from `i` on that are neither empty nor comments, by how deep they
/// stand.
pub open spec fn structure(ls: Seq<Text>, indent: nat, i: int) -> Seq<Line>
    decreases ls.len() - i,
{
    if 0 <= i < ls.len() {
        let t = trim(ls[i]);
        if t.len() == 0 || t[0] == '#' {
            structure(ls, indent, i + 1)
        } else {
            seq![Line { depth: depth_of(indentation(ls[i]), indent), text: t }] + structure(
                ls,
                indent,
                i + 1,
            )
        }
    } else {
        seq![]
    }
}

/// Reading lines is taking in their structure.
pub proof fn lemma_read_structure(k: Known, ls: Seq<Text>, indent: nat, i: int, done: Seq<Line>)
    requires
        0 <= i <= ls.len(),
    ensures
        read_lines(k, ls, indent, i, done) == taken(k, structure(ls, indent, i), done),
    decreases ls.len() - i,
{
    if i < ls.len() {
        let t = trim(ls[i]);
        let rest = structure(ls, indent, i + 1);
        if t.len() == 0 || t[0] == '#' {
            lemma_read_structure(k, ls, indent, i + 1, done);
        } else {
            let line = Line { depth: depth_of(indentation(ls[i]), indent), text: t };
            let l = structure(ls, indent, i);
            assert(l == seq![line] + rest);
            assert(l.drop_first() =~= rest);
            assert(l[0] == line);
            if is_silent(t) {
                lemma_read_structure(k, ls, indent, i + 1, done);
            } else {
                match definition_kind(t) {
                    Some(d) => {
                        lemma_read_structure(define(k, t, d), ls, indent, i + 1, done);
                    },
                    None => {
                        lemma_read_structure(k, ls, indent, i + 1, done.push(line));
                    },
                }
            }
        }
    }
}

/// The lines from `i` on that are neither empty nor comments.
pub open spec fn spoken(l: Seq<Line>, i: int) -> Seq<Line>
    decreases l.len() - i,
{
    if 0 <= i < l.len() {
        (if l[i].text.len() == 0 || l[i].text[0] == '#' {
            seq![]
        } else {
            seq![l[i]]
        }) + spoken(l, i + 1)
    } else {
        seq![]
    }
}

/// The structure of a layout is the lines that are neither empty nor comments.
pub proof fn lemma_structure_of_layout(l: Seq<Line>, indent: nat, w: nat, i: int)
    requires
        all_lines(l),
        forall|j: int|
            0 <= j < l.len() ==> depth_of((indent * (#[trigger] l[j]).depth) as nat, w) == l[j].depth,
        0 <= i <= l.len(),
    ensures
        structure(line_texts(l, indent), w, i) == spoken(l, i),
    decreases l.len() - i,
{
    let ts = line_texts(l, indent);
    if i < l.len() {
        lemma_structure_of_layout(l, indent, w, i + 1);
        assert(fits(l[i]) || is_gap(l[i]));
        if is_gap(l[i]) {
            lemma_gap(l[i], indent);
        } else {
            lemma_line_text(l[i], indent);
        }
        assert(ts[i] == line_text(l[i], indent));
        assert(l[i] == (Line { depth: l[i].depth, text: l[i].text }));
        assert(structure(ts, w, i) =~= spoken(l, i));
    }
}

// ---------------------------------------------------------------------------
// Semicolons

/// Whether no semicolon in `t` stands outside of quotes.
pub open spec fn no_open_semi(t: Text) -> bool {
    forall|j: int|
        0 <= j < t.len() && t[j] == ';' ==> (#[trigger] place_at(t, j)).skip || place_at(t, j).quoted
}

/// Whether `t` leaves the reader outside of quotes.
pub open spec fn is_shut(t: Text) -> bool {
    !place_at(t, t.len() as int).skip && !place_at(t, t.len() as int).quoted
}

/// The first semicolon outside of quotes.
proof fn lemma_semi_from(s: Text, i: int, k: int)
    requires
        0 <= i <= k <= s.len(),
        forall|j: int|
            i <= j < k && s[j] == ';' ==> (#[trigger] place_at(s, j)).skip || place_at(s, j).quoted,
        k < s.len() ==> s[k] == ';' && !place_at(s, k).skip && !place_at(s, k).quoted,
    ensures
        semi_at(s, i, place_at(s, i)) == k,
    decreases k - i,
{
    if i < k {
        assert(place_at(s, i + 1) == step(place_at(s, i), s[i]));
        lemma_semi_from(s, i + 1, k);
        assert(s[i] == ';' ==> place_at(s, i).skip || place_at(s, i).quoted);
    }
}

/// Where a row of semicolons ends.
proof fn lemma_semis_end_at(s: Text, i: int, z: int)
    requires
        0 <= i <= z <= s.len(),
        forall|j: int| i <= j < z ==> s[j] == ';',
        z < s.len() ==> s[z] != ';',
    ensures
        semis_end(s, i) == z,
    decreases z - i,
{
    if i < z {
        lemma_semis_end_at(s, i + 1, z);
    }
}

/// The segments of a text that begins with `t` and semicolons.
proof fn lemma_segment(t: Text, n: int, rest: Text)
    requires
        is_trim(t),
        no_open_semi(t),
        is_shut(t),
        n >= 1,
        rest.len() > 0 ==> rest[0] != ';',
    ensures
        segments(t + semis(n) + rest) == seq![Segment { text: t, semis: n as nat }] + segments(
            rest,
        ),
{
    let s = t + semis(n) + rest;
    let e = t.len() as int;
    assert forall|j: int| 0 <= j < e && s[j] == ';' implies (#[trigger] place_at(s, j)).skip
        || place_at(s, j).quoted by {
        lemma_place_same(s, t, j);
        assert(t[j] == ';');
        assert(place_at(t, j).skip || place_at(t, j).quoted);
    }
    lemma_place_same(s, t, e);
    assert(s[e] == ';');
    lemma_semi_from(s, 0, e);
    let z = e + n;
    if z < s.len() {
        assert(s[z] == rest[0]);
    }
    lemma_semis_end_at(s, e, z);
    assert(s.subrange(0, e) =~= t);
    assert(s.subrange(z, s.len() as int) =~= rest);
    lemma_trim_of_trim(t);
}

/// The segment of a text without semicolons outside of quotes.
proof fn lemma_last_segment(s: Text)
    requires
        no_open_semi(s),
    ensures
        segments(s) == seq![Segment { text: trim(s), semis: 0 }],
{
    lemma_semi_from(s, 0, s.len() as int);
}

/// Reading segments behind another is reading them alone.
proof fn lemma_read_shift(
    k: Known,
    x: Segment,
    g: Seq<Segment>,
    i: int,
    depth: nat,
    done: Seq<Line>,
)
    requires
        0 <= i <= g.len(),
    ensures
        read_segments(k, seq![x] + g, i + 1, depth, done) == read_segments(k, g, i, depth, done),
    decreases g.len() - i,
{
    if i < g.len() {
        let all = seq![x] + g;
        assert(all[i + 1] == g[i]);
        let t = g[i].text;
        if is_silent(t) {
            lemma_read_shift(k, x, g, i + 1, depth_behind(depth, g[i].semis), done);
        } else {
            match definition_kind(t) {
                Some(d) => {
                    lemma_read_shift(
                        define(k, t, d),
                        x,
                        g,
                        i + 1,
                        depth_behind(depth, g[i].semis),
                        done,
                    );
                },
                None => {
                    lemma_read_shift(
                        k,
                        x,
                        g,
                        i + 1,
                        depth_behind(depth + levels_opened(t), g[i].semis),
                        done.push(Line { depth: depth as int, text: t }),
                    );
                },
            }
        }
    }
}

/// The lines of segments behind another are the lines of them alone.
proof fn lemma_lines_shift(x: Segment, g: Seq<Segment>, i: int, depth: nat, done: Seq<Line>)
    requires
        0 <= i <= g.len(),
    ensures
        segment_lines(seq![x] + g, i + 1, depth, done) == segment_lines(g, i, depth, done),
    decreases g.len() - i,
{
    if i < g.len() {
        let all = seq![x] + g;
        assert(all[i + 1] == g[i]);
        let t = g[i].text;
        if t.len() == 0 {
            lemma_lines_shift(x, g, i + 1, depth_behind(depth, g[i].semis), done);
        } else {
            lemma_lines_shift(
                x,
                g,
                i + 1,
                depth_behind(depth + levels_begun(t), g[i].semis),
                done.push(Line { depth: depth as int, text: t }),
            );
        }
    }
}

// ---------------------------------------------------------------------------
// Lines on one line

/// How much deeper a reader of a minified document takes what follows `t`:
/// directives and definitions open no level.
pub open spec fn levels_read(t: Text) -> nat {
    if is_silent(t) || definition_kind(t) is Some {
        0
    } else {
        levels_opened(t)
    }
}

/// Whether the semicolons that a minifier writes between the line `l` and the
/// next lead from `levels` levels below `l` to the next.
#[verifier::opaque]
pub open spec fn falls_to(l: Line, next: Line, levels: nat) -> bool {
    &&& is_shut(l.text)
    &&& l.depth >= 0
    &&& next.depth == depth_behind(
        (l.depth + levels) as nat,
        semis_before(expected_depth(l.text, l.depth), next.depth) as nat,
    )
}

/// Whether a reader of a minified document comes from the line `l` to the next.
pub open spec fn leads_to(l: Line, next: Line) -> bool {
    falls_to(l, next, levels_read(l.text))
}

/// Whether a minified document that is written out comes from the line `l` to
/// the next.
pub open spec fn unfolds_to(l: Line, next: Line) -> bool {
    falls_to(l, next, levels_begun(l.text))
}

/// Whether `t` is no comment, and can stand on one line with others.
pub open spec fn is_segment(t: Text) -> bool {
    is_line(t) && t[0] != '#' && no_open_semi(t)
}

/// Whether lines can be read from one line: they begin at the margin, the first
/// that is indented stands one level deep, a reader comes from each to the next,
/// and no semicolon stands outside of quotes.
pub open spec fn nests(l: Seq<Line>) -> bool {
    &&& begins_flat(l)
    &&& forall|i: int| 0 <= i < l.len() - 1 ==> leads_to(#[trigger] l[i], l[i + 1])
    &&& forall|i: int| 0 <= i < l.len() ==> is_segment((#[trigger] l[i]).text)
}

/// Whether lines can be written out from one line: they begin at the margin,
/// each unfolds to the next, and no semicolon stands outside of quotes.
pub open spec fn folds(l: Seq<Line>) -> bool {
    &&& l.len() > 0 ==> l[0].depth == 0
    &&& forall|i: int| 0 <= i < l.len() - 1 ==> unfolds_to(#[trigger] l[i], l[i + 1])
    &&& forall|i: int| 0 <= i < l.len() ==> is_segment((#[trigger] l[i]).text)
}

/// The lines `l` with the semicolons before them, where `expected` was expected.
pub open spec fn strung(l: Seq<Line>, expected: int) -> Text
    decreases l.len(),
{
    if l.len() == 0 {
        seq![]
    } else {
        semis(semis_before(expected, l[0].depth)) + l[0].text + strung(
            l.drop_first(),
            expected_depth(l[0].text, l[0].depth),
        )
    }
}

/// The lines `l` on one line.
pub open spec fn on_line(l: Seq<Line>) -> Text {
    if l.len() == 0 {
        seq![]
    } else {
        l[0].text + strung(l.drop_first(), expected_depth(l[0].text, l[0].depth))
    }
}

/// A line that can stand on one line does not begin with a semicolon.
proof fn lemma_no_semi_first(t: Text)
    requires
        is_segment(t),
    ensures
        t[0] != ';',
{
    if t[0] == ';' {
        assert(place_at(t, 0).skip || place_at(t, 0).quoted);
    }
}

/// The lines on one line, read as segments, are the lines.
proof fn lemma_read_on_line(k: Known, l: Seq<Line>, done: Seq<Line>)
    requires
        l.len() > 0,
        l[0].depth >= 0,
        forall|i: int| 0 <= i < l.len() - 1 ==> leads_to(#[trigger] l[i], l[i + 1]),
        forall|i: int| 0 <= i < l.len() ==> is_segment((#[trigger] l[i]).text),
    ensures
        read_segments(k, segments(on_line(l)), 0, l[0].depth as nat, done) == taken(k, l, done),
    decreases l.len(),
{
    reveal(falls_to);
    let t = l[0].text;
    let rest = l.drop_first();
    let depth = l[0].depth as nat;
    let g = segments(on_line(l));
    assert(is_segment(t));
    lemma_trim_of_trim(t);
    assert(l[0] == (Line { depth: depth as int, text: t }));
    if l.len() == 1 {
        assert(rest =~= seq![]);
        assert(on_line(l) =~= t);
        lemma_last_segment(t);
        reveal_with_fuel(read_segments, 2);
        reveal_with_fuel(taken, 2);
        assert(g[0].text == t);
        assert(g.len() == 1);
    } else {
        let next = l[1];
        let exp = expected_depth(t, l[0].depth);
        let n = semis_before(exp, next.depth);
        let more = on_line(rest);
        assert(leads_to(l[0], l[1]));
        assert(rest[0] == next);
        assert(on_line(l) =~= t + semis(n) + more);
        assert(is_segment(next.text));
        lemma_no_semi_first(next.text);
        lemma_segment(t, n, more);
        let x = Segment { text: t, semis: n as nat };
        let h = segments(more);
        assert(g == seq![x] + h);
        assert(g[0] == x);
        assert forall|i: int| 0 <= i < rest.len() - 1 implies leads_to(#[trigger] rest[i], rest[i + 1]) by {
            assert(rest[i] == l[i + 1]);
            assert(rest[i + 1] == l[i + 2]);
        }
        assert forall|i: int| 0 <= i < rest.len() implies is_segment((#[trigger] rest[i]).text) by {
            assert(rest[i] == l[i + 1]);
        }
        let after = depth_behind(depth + levels_read(t), n as nat);
        assert(after == next.depth);
        if is_silent(t) {
            lemma_read_shift(k, x, h, 0, after, done);
            lemma_read_on_line(k, rest, done);
        } else {
            match definition_kind(t) {
                Some(d) => {
                    lemma_read_shift(define(k, t, d), x, h, 0, after, done);
                    lemma_read_on_line(define(k, t, d), rest, done);
                },
                None => {
                    lemma_read_shift(k, x, h, 0, after, done.push(l[0]));
                    lemma_read_on_line(k, rest, done.push(l[0]));
                },
            }
        }
    }
}

// ---------------------------------------------------------------------------
// Trimming and newlines

/// What leading white space is left out.
proof fn lemma_trim_start_bounds(s: Text)
    ensures
        ({
            let r = trim_start(s);
            let a = s.len() - r.len();
            &&& 0 <= a
            &&& r == s.subrange(a, s.len() as int)
            &&& forall|j: int| 0 <= j < a ==> is_space(#[trigger] s[j])
            &&& r.len() > 0 ==> !is_space(r[0])
        }),
    decreases s.len(),
{
    if s.len() > 0 && is_space(s[0]) {
        let s2 = s.subrange(1, s.len() as int);
        lemma_trim_start_bounds(s2);
        let r = trim_start(s2);
        let a = s.len() - r.len();
        assert(r =~= s.subrange(a, s.len() as int));
        assert forall|j: int| 0 <= j < a implies is_space(#[trigger] s[j]) by {
            if j > 0 {
                assert(s2[j - 1] == s[j]);
            }
        }
    } else {
        assert(s.subrange(0, s.len() as int) =~= s);
    }
}

/// What trailing white space is left out.
proof fn lemma_trim_end_bounds(s: Text)
    ensures
        ({
            let r = trim_end(s);
            &&& r.len() <= s.len()
            &&& r == s.subrange(0, r.len() as int)
            &&& forall|j: int| r.len() <= j < s.len() ==> is_space(#[trigger] s[j])
            &&& r.len() > 0 ==> !is_space(r.last())
        }),
    decreases s.len(),
{
    if s.len() > 0 && is_space(s[s.len() - 1]) {
        let s2 = s.subrange(0, s.len() - 1);
        lemma_trim_end_bounds(s2);
        let r = trim_end(s2);
        assert(r =~= s.subrange(0, r.len() as int));
        assert forall|j: int| r.len() <= j < s.len() implies is_space(#[trigger] s[j]) by {
            if j < s.len() - 1 {
                assert(s2[j] == s[j]);
            }
        }
    } else {
        assert(s.subrange(0, s.len() as int) =~= s);
    }
}

/// A trimmed text is a part of the text, with white space alone around it.
pub proof fn lemma_trim_bounds(s: Text)
    ensures
        ({
            let t = trim(s);
            let a = s.len() - trim_start(s).len();
            &&& 0 <= a
            &&& a + t.len() <= s.len()
            &&& t == s.subrange(a, a + t.len())
            &&& forall|j: int| 0 <= j < a ==> is_space(#[trigger] s[j])
            &&& forall|j: int| a + t.len() <= j < s.len() ==> is_space(#[trigger] s[j])
            &&& t.len() > 0 ==> is_trim(t)
        }),
{
    let r = trim_start(s);
    let a = s.len() - r.len();
    let t = trim(s);
    lemma_trim_start_bounds(s);
    lemma_trim_end_bounds(r);
    assert(t =~= s.subrange(a, a + t.len()));
    assert forall|j: int| a + t.len() <= j < s.len() implies is_space(#[trigger] s[j]) by {
        assert(r[j - a] == s[j]);
    }
    if t.len() > 0 {
        assert(t[0] == r[0]);
    }
}

/// A line holds no newline, and neither does what is left of it trimmed.
proof fn lemma_lines_no_newline(s: Text)
    ensures
        forall|i: int| 0 <= i < lines(s).len() ==> !(#[trigger] lines(s)[i]).contains('\n'),
    decreases s.len(),
{
    if s.len() > 0 {
        lemma_find_from(s, '\n', 0);
        match find(s, '\n') {
            Some(k) => {
                let rest = s.subrange(k + 1, s.len() as int);
                lemma_lines_no_newline(rest);
                let first = drop_return(s.subrange(0, k));
                assert forall|i: int| 0 <= i < lines(s).len() implies !(#[trigger] lines(
                    s,
                )[i]).contains('\n') by {
                    if i == 0 {
                        assert forall|j: int| 0 <= j < first.len() implies first[j] != '\n' by {
                            assert(first[j] == s[j]);
                        }
                    } else {
                        assert(lines(s)[i] == lines(rest)[i - 1]);
                    }
                }
            },
            None => {},
        }
    }
}

/// A trimmed text holds no newline where the text holds none.
proof fn lemma_trim_no_newline(s: Text)
    requires
        !s.contains('\n'),
    ensures
        !trim(s).contains('\n'),
{
    lemma_trim_bounds(s);
    let a = s.len() - trim_start(s).len();
    assert forall|j: int| 0 <= j < trim(s).len() implies trim(s)[j] != '\n' by {
        assert(trim(s)[j] == s[a + j]);
    }
}

// ---------------------------------------------------------------------------
// Documents that are laid out

/// Whether a line names the format; such a comment stays in a minified document.
pub open spec fn is_name(t: Text) -> bool {
    starts_with(t, "#!scon/"@)
}

/// Whether no line from `i` on names the format.
pub open spec fn no_names(ls: Seq<Text>, i: int) -> bool {
    forall|j: int| i <= j < ls.len() ==> !is_name(trim(#[trigger] ls[j]))
}

/// Whether lines that name the format stand before all that hold something, and
/// can stand on one line.
pub open spec fn names_lead(ls: Seq<Text>, i: int) -> bool
    decreases ls.len() - i,
{
    if 0 <= i < ls.len() {
        let t = trim(ls[i]);
        if t.len() == 0 || t[0] == '#' {
            (is_name(t) ==> no_open_semi(t) && is_shut(t)) && names_lead(ls, i + 1)
        } else {
            no_names(ls, i + 1)
        }
    } else {
        true
    }
}

/// The lines that name the format.
pub open spec fn name_lines(ls: Seq<Text>, i: int) -> Seq<Line>
    decreases ls.len() - i,
{
    if 0 <= i < ls.len() {
        let t = trim(ls[i]);
        if t.len() == 0 || t[0] == '#' {
            (if is_name(t) {
                seq![Line { depth: 0, text: t }]
            } else {
                seq![]
            }) + name_lines(ls, i + 1)
        } else {
            seq![]
        }
    } else {
        seq![]
    }
}

/// Lines with a semicolon behind each.
pub open spec fn names_text(l: Seq<Line>) -> Text
    decreases l.len(),
{
    if l.len() == 0 {
        seq![]
    } else {
        l[0].text + seq![';'] + names_text(l.drop_first())
    }
}

/// The lines of a document that hold something.
pub open spec fn structure_of(s: Text) -> Seq<Line> {
    structure(lines(s), line_indent(lines(s)), 0)
}

/// Whether a document is laid out so that it can stand on one line: a reader
/// and a minifier find the same indentation, its lines nest, and what names the
/// format stands first.
pub open spec fn laid_out(s: Text) -> bool {
    &&& detected_indent(s, 1) == line_indent(lines(s))
    &&& nests(structure_of(s))
    &&& names_lead(lines(s), 0)
    &&& is_minified(s) ==> no_open_semi(s)
}

/// The lines behind the first are strung together.
proof fn lemma_strung(ls: Seq<Text>, indent: nat, i: int, expected: int, done: Text)
    requires
        0 <= i <= ls.len(),
        no_names(ls, i),
    ensures
        on_one_line(ls, indent, i, expected, false, done) == done + strung(
            structure(ls, indent, i),
            expected,
        ),
    decreases ls.len() - i,
{
    let l = structure(ls, indent, i);
    if i < ls.len() {
        let t = trim(ls[i]);
        let rest = structure(ls, indent, i + 1);
        if t.len() == 0 || t[0] == '#' {
            assert(!is_name(trim(ls[i])));
            lemma_strung(ls, indent, i + 1, expected, done);
        } else {
            let depth = depth_of(indentation(ls[i]), indent);
            let line = Line { depth, text: t };
            assert(l == seq![line] + rest);
            assert(l.drop_first() =~= rest);
            assert(l[0] == line);
            let gap = semis(semis_before(expected, depth));
            let more = done + gap + t;
            lemma_strung(ls, indent, i + 1, expected_depth(t, depth), more);
            assert(more + strung(rest, expected_depth(t, depth)) =~= done + strung(l, expected));
        }
    } else {
        assert(done + strung(l, expected) =~= done);
    }
}

/// A document on one line: what names the format, and the lines.
proof fn lemma_minified(ls: Seq<Text>, indent: nat, i: int, done: Text)
    requires
        0 <= i <= ls.len(),
        names_lead(ls, i),
    ensures
        on_one_line(ls, indent, i, 0, true, done) == done + (names_text(name_lines(ls, i)) + on_line(
            structure(ls, indent, i),
        )),
    decreases ls.len() - i,
{
    let l = structure(ls, indent, i);
    let names = name_lines(ls, i);
    if i < ls.len() {
        let t = trim(ls[i]);
        if t.len() == 0 || t[0] == '#' {
            let later = name_lines(ls, i + 1);
            let tail = names_text(later) + on_line(structure(ls, indent, i + 1));
            if is_name(t) {
                let line = Line { depth: 0, text: t };
                assert(names == seq![line] + later);
                assert(names.drop_first() =~= later);
                assert(names[0] == line);
                let more = done + t + seq![';'];
                lemma_minified(ls, indent, i + 1, more);
                assert(more + tail =~= done + (names_text(names) + on_line(l)));
            } else {
                assert(names =~= later);
                lemma_minified(ls, indent, i + 1, done);
            }
        } else {
            let depth = depth_of(indentation(ls[i]), indent);
            let line = Line { depth, text: t };
            let rest = structure(ls, indent, i + 1);
            assert(l == seq![line] + rest);
            assert(l.drop_first() =~= rest);
            assert(l[0] == line);
            let none: Text = seq![];
            let more = done + none + t;
            lemma_strung(ls, indent, i + 1, expected_depth(t, depth), more);
            assert(names =~= seq![]);
            assert(more + strung(rest, expected_depth(t, depth)) =~= done + (names_text(names)
                + on_line(l)));
        }
    } else {
        assert(names =~= seq![]);
        assert(done + (names_text(names) + on_line(l)) =~= done);
    }
}

/// Whether a line names the format and can stand on one line.
pub open spec fn name_fits(l: Line) -> bool {
    l.depth == 0 && is_line(l.text) && is_name(l.text) && no_open_semi(l.text) && is_shut(l.text)
}

/// The lines that name the format can stand on one line.
proof fn lemma_name_lines(ls: Seq<Text>, i: int)
    requires
        0 <= i <= ls.len(),
        names_lead(ls, i),
        forall|j: int| 0 <= j < ls.len() ==> !(#[trigger] ls[j]).contains('\n'),
    ensures
        forall|j: int| 0 <= j < name_lines(ls, i).len() ==> name_fits(#[trigger] name_lines(ls, i)[j]),
    decreases ls.len() - i,
{
    if i < ls.len() {
        let t = trim(ls[i]);
        if t.len() == 0 || t[0] == '#' {
            lemma_name_lines(ls, i + 1);
            lemma_trim_bounds(ls[i]);
            lemma_trim_no_newline(ls[i]);
            reveal_strlit("#!scon/");
            let later = name_lines(ls, i + 1);
            let names = name_lines(ls, i);
            assert forall|j: int| 0 <= j < names.len() implies name_fits(#[trigger] names[j]) by {
                if is_name(t) {
                    if j > 0 {
                        assert(names[j] == later[j - 1]);
                    }
                } else {
                    assert(names[j] == later[j]);
                }
            }
        }
    }
}

/// What names the format is a comment.
proof fn lemma_name_is_comment(t: Text)
    requires
        is_name(t),
    ensures
        t.len() > 0,
        t[0] == '#',
{
    reveal_strlit("#!scon/");
    assert(t.subrange(0, 7)[0] == t[0]);
}

/// What names the format is passed over.
proof fn lemma_read_names(k: Known, names: Seq<Line>, m: Text, done: Seq<Line>)
    requires
        forall|j: int| 0 <= j < names.len() ==> name_fits(#[trigger] names[j]),
        m.len() > 0 ==> m[0] != ';',
    ensures
        read_segments(k, segments(names_text(names) + m), 0, 0, done) == read_segments(
            k,
            segments(m),
            0,
            0,
            done,
        ),
    decreases names.len(),
{
    if names.len() == 0 {
        assert(names_text(names) + m =~= m);
    } else {
        let t = names[0].text;
        let rest = names.drop_first();
        assert(name_fits(names[0]));
        lemma_name_is_comment(t);
        assert forall|j: int| 0 <= j < rest.len() implies name_fits(#[trigger] rest[j]) by {
            assert(rest[j] == names[j + 1]);
        }
        lemma_read_names(k, rest, m, done);
        let more = names_text(rest) + m;
        assert(semis(1) =~= seq![';']);
        assert(names_text(names) + m =~= t + semis(1) + more);
        if rest.len() > 0 {
            assert(name_fits(rest[0]));
            lemma_name_is_comment(rest[0].text);
            assert(more[0] == rest[0].text[0]);
        } else {
            assert(more =~= m);
        }
        lemma_segment(t, 1, more);
        let x = Segment { text: t, semis: 1 };
        lemma_read_shift(k, x, segments(more), 0, 0, done);
        assert((seq![x] + segments(more))[0] == x);
    }
}

/// What lines say to a new decoder.
pub open spec fn said(l: Seq<Line>) -> Result<Val, Text> {
    let (k, ls) = taken(new_setting().known, l, seq![]);
    document(k.stores, k.open, ls).result
}

/// The only line of a text without newlines.
proof fn lemma_one_line(s: Text)
    requires
        !s.contains('\n'),
    ensures
        s.len() == 0 ==> lines(s) == Seq::<Text>::empty(),
        s.len() > 0 ==> lines(s) == seq![s],
{
    lemma_find_from(s, '\n', 0);
}

/// A document on one line without semicolons outside of quotes is read as the
/// line that it is.
proof fn lemma_read_one_line(k: Known, s: Text, indent: nat, done: Seq<Line>)
    requires
        !s.contains('\n'),
        no_open_semi(s),
        structure(lines(s), indent, 0).len() > 0 ==> structure(lines(s), indent, 0)[0].depth == 0,
    ensures
        read_segments(k, segments(s), 0, 0, done) == taken(
            k,
            structure(lines(s), indent, 0),
            done,
        ),
{
    let t = trim(s);
    let l = structure(lines(s), indent, 0);
    lemma_one_line(s);
    lemma_last_segment(s);
    let g = segments(s);
    assert(g.len() == 1);
    assert(g[0].text == t);
    reveal_with_fuel(read_segments, 2);
    reveal_with_fuel(taken, 2);
    reveal_with_fuel(structure, 2);
    if s.len() == 0 {
        lemma_trim_bounds(s);
        assert(l =~= seq![]);
    } else if t.len() == 0 || t[0] == '#' {
        assert(l =~= seq![]);
    } else {
        let line = Line { depth: depth_of(indentation(s), indent), text: t };
        assert(lines(s)[0] == s);
        assert(l =~= seq![line]);
        assert(l.drop_first() =~= seq![]);
        assert(l[0] == line);
        assert(line == (Line { depth: 0, text: t }));
    }
}

/// A document that is laid out says what its lines say.
pub proof fn lemma_decode_laid_out(s: Text)
    requires
        laid_out(s),
    ensures
        decode_text(s) == said(structure_of(s)),
{
    let k = new_setting().known;
    let w = line_indent(lines(s));
    if is_minified(s) {
        lemma_read_one_line(k, s, w, seq![]);
    } else {
        lemma_read_structure(k, lines(s), w, 0, seq![]);
    }
}

/// Lines on one line hold no newline, and a semicolon between any two.
proof fn lemma_strung_holds(l: Seq<Line>, expected: int)
    requires
        forall|i: int| 0 <= i < l.len() ==> is_segment((#[trigger] l[i]).text),
    ensures
        !strung(l, expected).contains('\n'),
        l.len() > 0 ==> strung(l, expected).contains(';'),
    decreases l.len(),
{
    if l.len() > 0 {
        let rest = l.drop_first();
        assert forall|i: int| 0 <= i < rest.len() implies is_segment((#[trigger] rest[i]).text) by {
            assert(rest[i] == l[i + 1]);
        }
        let t = l[0].text;
        let more = strung(rest, expected_depth(t, l[0].depth));
        lemma_strung_holds(rest, expected_depth(t, l[0].depth));
        let g = semis(semis_before(expected, l[0].depth));
        let x = strung(l, expected);
        assert(x == g + t + more);
        assert(is_segment(t));
        assert(x[0] == ';');
        assert forall|j: int| 0 <= j < x.len() implies x[j] != '\n' by {
            if j >= g.len() + t.len() {
                assert(x[j] == more[j - g.len() - t.len()]);
            } else if j >= g.len() {
                assert(x[j] == t[j - g.len()]);
            }
        }
    }
}

/// What names the format holds no newline, and a semicolon where there is any.
proof fn lemma_names_hold(names: Seq<Line>)
    requires
        forall|j: int| 0 <= j < names.len() ==> name_fits(#[trigger] names[j]),
    ensures
        !names_text(names).contains('\n'),
        names.len() > 0 ==> names_text(names).contains(';'),
    decreases names.len(),
{
    if names.len() > 0 {
        let rest = names.drop_first();
        assert forall|j: int| 0 <= j < rest.len() implies name_fits(#[trigger] rest[j]) by {
            assert(rest[j] == names[j + 1]);
        }
        lemma_names_hold(rest);
        let t = names[0].text;
        assert(name_fits(names[0]));
        let more = names_text(rest);
        let x = names_text(names);
        assert(x == t + seq![';'] + more);
        assert(x[t.len() as int] == ';');
        assert forall|j: int| 0 <= j < x.len() implies x[j] != '\n' by {
            if j < t.len() {
                assert(x[j] == t[j]);
            } else if j > t.len() {
                assert(x[j] == more[j - t.len() - 1]);
            }
        }
    }
}

/// A minified document is what names the format and the lines on one line.
proof fn lemma_minified_parts(s: Text)
    requires
        names_lead(lines(s), 0),
        forall|i: int|
            0 <= i < structure_of(s).len() ==> is_segment((#[trigger] structure_of(s)[i]).text),
    ensures
        ({
            let names = name_lines(lines(s), 0);
            let l = structure_of(s);
            &&& minified(s) == names_text(names) + on_line(l)
            &&& forall|j: int| 0 <= j < names.len() ==> name_fits(#[trigger] names[j])
            &&& !minified(s).contains('\n')
            &&& minified(s).contains(';') || (names.len() == 0 && l.len() <= 1)
            &&& on_line(l).len() > 0 ==> on_line(l)[0] != ';'
        }),
{
    let ls = lines(s);
    let names = name_lines(ls, 0);
    let l = structure_of(s);
    let none: Text = seq![];
    lemma_minified(ls, line_indent(ls), 0, none);
    let m = minified(s);
    assert(none + (names_text(names) + on_line(l)) =~= names_text(names) + on_line(l));
    lemma_lines_no_newline(s);
    lemma_name_lines(ls, 0);
    lemma_names_hold(names);
    let a = names_text(names);
    let b = on_line(l);
    if l.len() > 0 {
        let rest = l.drop_first();
        assert forall|i: int| 0 <= i < rest.len() implies is_segment((#[trigger] rest[i]).text) by {
            assert(rest[i] == l[i + 1]);
        }
        let t = l[0].text;
        assert(is_segment(t));
        lemma_no_semi_first(t);
        let more = strung(rest, expected_depth(t, l[0].depth));
        lemma_strung_holds(rest, expected_depth(t, l[0].depth));
        assert forall|j: int| 0 <= j < b.len() implies b[j] != '\n' by {
            if j < t.len() {
                assert(b[j] == t[j]);
            } else {
                assert(b[j] == more[j - t.len()]);
            }
        }
        if l.len() > 1 {
            let j = choose|j: int| 0 <= j < more.len() && more[j] == ';';
            assert(m[a.len() + t.len() + j] == ';');
        }
    }
    if names.len() > 0 {
        let j = choose|j: int| 0 <= j < a.len() && a[j] == ';';
        assert(m[j] == ';');
    }
    assert forall|j: int| 0 <= j < m.len() implies m[j] != '\n' by {
        if j < a.len() {
            assert(m[j] == a[j]);
        } else {
            assert(m[j] == b[j - a.len()]);
        }
    }
}

/// Minifying keeps what a document says: a decoder reads the same from a
/// document that is laid out and from the same on one line.
pub proof fn minifying_keeps_the_value(s: Text)
    requires
        laid_out(s),
    ensures
        decode_text(minified(s)) == decode_text(s),
{
    let k = new_setting().known;
    let names = name_lines(lines(s), 0);
    let l = structure_of(s);
    let m = minified(s);
    lemma_minified_parts(s);
    lemma_decode_laid_out(s);
    if m.contains(';') {
        lemma_read_names(k, names, on_line(l), seq![]);
        if l.len() > 0 {
            lemma_read_on_line(k, l, seq![]);
        } else {
            let none: Text = seq![];
            assert(no_open_semi(none));
            lemma_last_segment(none);
            lemma_trim_bounds(none);
            assert(segments(none)[0].text.len() == 0);
            reveal_with_fuel(read_segments, 2);
        }
    } else {
        assert(names_text(names) =~= seq![]);
        lemma_one_line(m);
        let w = detected_indent(m, 1);
        lemma_read_structure(k, lines(m), w, 0, seq![]);
        reveal_with_fuel(structure, 2);
        if l.len() == 0 {
            assert(m =~= seq![]);
            assert(structure(lines(m), w, 0) =~= l);
        } else {
            let t = l[0].text;
            assert(l.drop_first() =~= seq![]);
            assert(m =~= t);
            assert(is_segment(t));
            lemma_trim_of_trim(t);
            let none: Text = seq![];
            lemma_indentation(t, 0);
            assert(spaces(0) + t =~= t);
            assert(lines(m)[0] == t);
            assert(depth_of(0, w) == 0) by {
                assert(w > 0 ==> 0int / (w as int) == 0) by (nonlinear_arith);
            }
            assert(l[0] == (Line { depth: 0, text: t }));
            assert(structure(lines(m), w, 0) =~= l);
        }
    }
}

// ---------------------------------------------------------------------------
// Back to lines

/// The first line and the others on one line, as segments.
proof fn lemma_on_line_segments(l: Seq<Line>)
    requires
        l.len() >= 2,
        is_shut(l[0].text),
        is_segment(l[0].text),
        is_segment(l[1].text),
    ensures
        ({
            let n = semis_before(expected_depth(l[0].text, l[0].depth), l[1].depth);
            &&& n >= 1
            &&& segments(on_line(l)) == seq![Segment { text: l[0].text, semis: n as nat }]
                + segments(on_line(l.drop_first()))
        }),
{
    let t = l[0].text;
    let rest = l.drop_first();
    let n = semis_before(expected_depth(t, l[0].depth), l[1].depth);
    let more = on_line(rest);
    assert(rest[0] == l[1]);
    assert(on_line(l) =~= t + semis(n) + more);
    lemma_no_semi_first(l[1].text);
    lemma_segment(t, n, more);
}

/// The lines on one line, written out, are the lines.
proof fn lemma_lines_on_line(l: Seq<Line>, done: Seq<Line>)
    requires
        l.len() > 0,
        l[0].depth >= 0,
        forall|i: int| 0 <= i < l.len() - 1 ==> unfolds_to(#[trigger] l[i], l[i + 1]),
        forall|i: int| 0 <= i < l.len() ==> is_segment((#[trigger] l[i]).text),
    ensures
        segment_lines(segments(on_line(l)), 0, l[0].depth as nat, done) == done + l,
    decreases l.len(),
{
    reveal(falls_to);
    let t = l[0].text;
    let rest = l.drop_first();
    let depth = l[0].depth as nat;
    let g = segments(on_line(l));
    assert(is_segment(t));
    lemma_trim_of_trim(t);
    assert(l[0] == (Line { depth: depth as int, text: t }));
    if l.len() == 1 {
        assert(rest =~= seq![]);
        assert(on_line(l) =~= t);
        lemma_last_segment(t);
        reveal_with_fuel(segment_lines, 2);
        assert(g[0].text == t);
        assert(g.len() == 1);
        assert(done.push(l[0]) =~= done + l);
    } else {
        let next = l[1];
        let n = semis_before(expected_depth(t, l[0].depth), next.depth);
        assert(unfolds_to(l[0], l[1]));
        assert(is_segment(next.text));
        assert(rest[0] == next);
        lemma_on_line_segments(l);
        let x = Segment { text: t, semis: n as nat };
        let h = segments(on_line(rest));
        assert(g[0] == x);
        assert forall|i: int| 0 <= i < rest.len() - 1 implies unfolds_to(
            #[trigger] rest[i],
            rest[i + 1],
        ) by {
            assert(rest[i] == l[i + 1]);
            assert(rest[i + 1] == l[i + 2]);
        }
        assert forall|i: int| 0 <= i < rest.len() implies is_segment((#[trigger] rest[i]).text) by {
            assert(rest[i] == l[i + 1]);
        }
        let after = depth_behind(depth + levels_begun(t), n as nat);
        assert(after == next.depth);
        lemma_lines_shift(x, h, 0, after, done.push(l[0]));
        lemma_lines_on_line(rest, done.push(l[0]));
        assert(done.push(l[0]) + rest =~= done + l);
    }
}

/// What names the format stands on lines of its own.
proof fn lemma_lines_names(names: Seq<Line>, m: Text, done: Seq<Line>)
    requires
        forall|j: int| 0 <= j < names.len() ==> name_fits(#[trigger] names[j]),
        forall|j: int| 0 <= j < names.len() ==> levels_begun((#[trigger] names[j]).text) == 0,
        m.len() > 0 ==> m[0] != ';',
    ensures
        segment_lines(segments(names_text(names) + m), 0, 0, done) == segment_lines(
            segments(m),
            0,
            0,
            done + names,
        ),
    decreases names.len(),
{
    if names.len() == 0 {
        assert(names_text(names) + m =~= m);
        assert(done + names =~= done);
    } else {
        let t = names[0].text;
        let rest = names.drop_first();
        assert(name_fits(names[0]));
        assert(levels_begun(names[0].text) == 0);
        lemma_name_is_comment(t);
        assert forall|j: int| 0 <= j < rest.len() implies name_fits(#[trigger] rest[j]) by {
            assert(rest[j] == names[j + 1]);
        }
        assert forall|j: int| 0 <= j < rest.len() implies levels_begun((#[trigger] rest[j]).text)
            == 0 by {
            assert(rest[j] == names[j + 1]);
        }
        let line = names[0];
        assert(line == (Line { depth: 0, text: t }));
        lemma_lines_names(rest, m, done.push(line));
        let more = names_text(rest) + m;
        assert(semis(1) =~= seq![';']);
        assert(names_text(names) + m =~= t + semis(1) + more);
        if rest.len() > 0 {
            assert(name_fits(rest[0]));
            lemma_name_is_comment(rest[0].text);
            assert(more[0] == rest[0].text[0]);
        } else {
            assert(more =~= m);
        }
        lemma_segment(t, 1, more);
        let x = Segment { text: t, semis: 1 };
        lemma_lines_shift(x, segments(more), 0, 0, done.push(line));
        assert((seq![x] + segments(more))[0] == x);
        assert(done.push(line) + rest =~= done + names);
    }
}

/// Whether a document that is minified can be written out again: its lines can,
/// and what names the format stands first and opens no level.
pub open spec fn foldable(s: Text) -> bool {
    let names = name_lines(lines(s), 0);
    &&& folds(structure_of(s))
    &&& names_lead(lines(s), 0)
    &&& forall|j: int| 0 <= j < names.len() ==> levels_begun((#[trigger] names[j]).text) == 0
}

/// Expanding undoes minifying: a document comes back with its lines at their
/// depths, without empty lines and comments, but for those that name the format.
pub proof fn expanding_undoes_minifying(s: Text, indent: nat)
    requires
        foldable(s),
    ensures
        expanded(minified(s), indent) == layout(
            name_lines(lines(s), 0) + structure_of(s),
            indent,
        ),
{
    let names = name_lines(lines(s), 0);
    let l = structure_of(s);
    lemma_minified_parts(s);
    lemma_lines_names(names, on_line(l), seq![]);
    let none: Seq<Line> = seq![];
    assert(none + names =~= names);
    if l.len() > 0 {
        lemma_lines_on_line(l, names);
    } else {
        let t: Text = seq![];
        assert(no_open_semi(t));
        lemma_last_segment(t);
        lemma_trim_bounds(t);
        assert(segments(t)[0].text.len() == 0);
        reveal_with_fuel(segment_lines, 2);
        assert(names + l =~= names);
    }
}

/// Lines that nest, behind what names the format, can be laid out, and the
/// first of them that is indented stands one level deep.
pub proof fn lemma_fit(names: Seq<Line>, l: Seq<Line>)
    requires
        forall|j: int| 0 <= j < names.len() ==> name_fits(#[trigger] names[j]),
        nests(l),
    ensures
        all_lines(names + l),
        forall|i: int| 0 <= i < (names + l).len() ==> fits(#[trigger] (names + l)[i]),
        begins_flat(names + l),
{
    reveal(falls_to);
    let all = names + l;
    assert forall|i: int| 0 <= i < all.len() implies fits(#[trigger] all[i]) by {
        if i < names.len() {
            assert(name_fits(names[i]));
        } else {
            let j = i - names.len();
            assert(all[i] == l[j]);
            assert(is_segment(l[j].text));
            if j > 0 {
                assert(leads_to(l[j - 1], l[j]));
            }
        }
    }
    if all.len() > 0 {
        if names.len() > 0 {
            assert(name_fits(names[0]));
        } else {
            assert(all[0] == l[0]);
        }
    }
    assert forall|i: int|
        0 <= i < all.len() && flat_before(all, i) && (#[trigger] all[i]).depth > 0 implies all[i].depth
        == 1 by {
        if i < names.len() {
            assert(name_fits(names[i]));
        } else {
            let j = i - names.len();
            assert(all[i] == l[j]);
            assert forall|q: int| 0 <= q < j implies (#[trigger] l[q]).depth == 0 by {
                assert(all[q + names.len()] == l[q]);
            }
            assert(flat_before(l, j));
        }
    }
}

/// Lines that nest are spoken.
pub proof fn lemma_spoken(names: Seq<Line>, l: Seq<Line>, i: int)
    requires
        forall|j: int| 0 <= j < names.len() ==> name_fits(#[trigger] names[j]),
        forall|j: int| 0 <= j < l.len() ==> is_segment((#[trigger] l[j]).text),
        0 <= i <= names.len() + l.len(),
    ensures
        spoken(names + l, i) == (if i < names.len() {
            l
        } else {
            l.subrange(i - names.len(), l.len() as int)
        }),
    decreases names.len() + l.len() - i,
{
    let all = names + l;
    if i < all.len() {
        lemma_spoken(names, l, i + 1);
        if i < names.len() {
            assert(name_fits(names[i]));
            lemma_name_is_comment(names[i].text);
            assert(all[i] == names[i]);
            assert(l.subrange(0, l.len() as int) =~= l);
            assert(spoken(all, i) =~= l);
        } else {
            let j = i - names.len();
            assert(all[i] == l[j]);
            assert(is_segment(l[j].text));
            assert(seq![l[j]] + l.subrange(j + 1, l.len() as int) =~= l.subrange(j, l.len() as int));
        }
    } else {
        assert(l.subrange(l.len() as int, l.len() as int) =~= seq![]);
        assert(i - names.len() == l.len());
    }
}

/// What is spoken of lines behind lines.
pub proof fn lemma_spoken_concat(a: Seq<Line>, b: Seq<Line>, i: int)
    requires
        0 <= i <= a.len() + b.len(),
    ensures
        spoken(a + b, i) == (if i < a.len() {
            spoken(a, i) + spoken(b, 0)
        } else {
            spoken(b, i - a.len())
        }),
    decreases a.len() + b.len() - i,
{
    if i < a.len() + b.len() {
        lemma_spoken_concat(a, b, i + 1);
        if i < a.len() {
            assert((a + b)[i] == a[i]);
            assert(spoken(a, a.len() as int) =~= seq![]);
            assert(spoken(a + b, i) =~= spoken(a, i) + spoken(b, 0));
        } else {
            assert((a + b)[i] == b[i - a.len()]);
        }
    }
}

/// In a layout, what names the format leads.
proof fn lemma_names_lead(names: Seq<Line>, l: Seq<Line>, indent: nat, i: int)
    requires
        forall|j: int| 0 <= j < names.len() ==> name_fits(#[trigger] names[j]),
        nests(l),
        0 <= i <= names.len() + l.len(),
    ensures
        names_lead(line_texts(names + l, indent), i),
    decreases names.len() + l.len() - i,
{
    let all = names + l;
    let ts = line_texts(all, indent);
    lemma_fit(names, l);
    if i < all.len() {
        lemma_names_lead(names, l, indent, i + 1);
        assert(fits(all[i]));
        lemma_line_text(all[i], indent);
        assert(ts[i] == line_text(all[i], indent));
        if i < names.len() {
            assert(name_fits(names[i]));
            assert(all[i] == names[i]);
            lemma_name_is_comment(names[i].text);
        } else {
            assert forall|j: int| i + 1 <= j < ts.len() implies !is_name(trim(#[trigger] ts[j])) by {
                assert(fits(all[j]));
                lemma_line_text(all[j], indent);
                assert(all[j] == l[j - names.len()]);
                assert(is_segment(l[j - names.len()].text));
                if is_name(all[j].text) {
                    lemma_name_is_comment(all[j].text);
                }
            }
            assert(all[i] == l[i - names.len()]);
            assert(is_segment(l[i - names.len()].text));
        }
    }
}

/// Lines that nest are laid out by a layout, and are its structure.
pub proof fn lemma_layout_is_laid_out(names: Seq<Line>, l: Seq<Line>, indent: nat)
    requires
        forall|j: int| 0 <= j < names.len() ==> name_fits(#[trigger] names[j]),
        nests(l),
        indent >= 1,
    ensures
        laid_out(layout(names + l, indent)),
        structure_of(layout(names + l, indent)) == l,
{
    let all = names + l;
    let s = layout(all, indent);
    let ts = line_texts(all, indent);
    lemma_fit(names, l);
    lemma_lines_of_layout(all, indent);
    if all.len() > 0 {
        assert(fits(all[0]));
        lemma_detected(all, indent);
        lemma_structure_of_layout(all, indent, line_indent(ts), 0);
        lemma_spoken(names, l, 0);
        assert(l.subrange(0, l.len() as int) =~= l);
        lemma_names_lead(names, l, indent, 0);
        if is_minified(s) {
            if all.len() >= 2 {
                lemma_layout_first(all, indent);
                let k = line_text(all[0], indent).len() as int;
                assert(s[k] == '\n');
            }
            assert(fits(all[0]));
            assert(all[0].depth == 0);
            assert(indent * 0int == 0) by (nonlinear_arith);
            assert(spaces(0) + all[0].text =~= all[0].text);
            assert(s == all[0].text);
            if names.len() > 0 {
                assert(name_fits(names[0]));
                assert(all[0] == names[0]);
            } else {
                assert(all[0] == l[0]);
                assert(is_segment(l[0].text));
            }
        }
    } else {
        assert(l =~= seq![]);
        assert(ts =~= seq![]);
        assert(s =~= seq![]);
        lemma_find_from(s, '\n', 0);
        assert(structure_of(s) =~= l);
    }
}

/// Lines without comments, with empty lines between them, are laid out by a
/// layout where they nest without the empty lines, and these are its structure.
pub proof fn lemma_spaced_layout(l: Seq<Line>, indent: nat)
    requires
        all_lines(l),
        begins_flat(l),
        l.len() > 0,
        !is_gap(l[0]),
        forall|i: int| 0 <= i < l.len() ==> is_gap(#[trigger] l[i]) || l[i].text[0] != '#',
        nests(spoken(l, 0)),
        indent >= 1,
    ensures
        laid_out(layout(l, indent)),
        structure_of(layout(l, indent)) == spoken(l, 0),
{
    let s = layout(l, indent);
    let ts = line_texts(l, indent);
    lemma_lines_of_layout(l, indent);
    lemma_detected(l, indent);
    lemma_structure_of_layout(l, indent, line_indent(ts), 0);
    assert forall|j: int| 0 <= j < ts.len() implies !is_name(trim(#[trigger] ts[j])) by {
        assert(ts[j] == line_text(l[j], indent));
        assert(fits(l[j]) || is_gap(l[j]));
        if is_gap(l[j]) {
            lemma_gap(l[j], indent);
            reveal_strlit("#!scon/");
        } else {
            lemma_line_text(l[j], indent);
            if is_name(l[j].text) {
                lemma_name_is_comment(l[j].text);
            }
        }
    }
    lemma_no_names_lead(ts, 0);
    if is_minified(s) {
        if l.len() >= 2 {
            lemma_layout_first(l, indent);
            let k = line_text(l[0], indent).len() as int;
            assert(s[k] == '\n');
        }
        assert(indent * 0int == 0) by (nonlinear_arith);
        assert(spaces(0) + l[0].text =~= l[0].text);
        assert(s == l[0].text);
        assert(spoken(l, 0)[0] == l[0]);
        assert(is_segment(spoken(l, 0)[0].text));
    }
}

/// Where no line names the format, nothing stands before one that does.
proof fn lemma_no_names_lead(ls: Seq<Text>, i: int)
    requires
        0 <= i <= ls.len(),
        no_names(ls, 0),
    ensures
        names_lead(ls, i),
    decreases ls.len() - i,
{
    if i < ls.len() {
        assert(!is_name(trim(ls[i])));
        lemma_no_names_lead(ls, i + 1);
    }
}

/// Lines come back from a layout of them that was minified and expanded, letter
/// for letter.
pub proof fn a_layout_comes_back(l: Seq<Line>, indent: nat)
    requires
        folds(l),
        begins_flat(l),
        indent >= 1,
    ensures
        expanded(minified(layout(l, indent)), indent) == layout(l, indent),
{
    reveal(falls_to);
    let s = layout(l, indent);
    let ts = line_texts(l, indent);
    let none: Seq<Line> = seq![];
    assert forall|i: int| 0 <= i < l.len() implies fits(#[trigger] l[i]) by {
        assert(is_segment(l[i].text));
        if i > 0 {
            assert(unfolds_to(l[i - 1], l[i]));
        }
    }
    lemma_lines_of_layout(l, indent);
    if l.len() > 0 {
        assert(fits(l[0]));
        lemma_detected(l, indent);
        lemma_structure_of_layout(l, indent, line_indent(ts), 0);
        lemma_spoken(none, l, 0);
        assert(none + l =~= l);
        assert(l.subrange(0, l.len() as int) =~= l);
        assert forall|j: int| 0 <= j < ts.len() implies !is_name(trim(#[trigger] ts[j])) by {
            assert(ts[j] == line_text(l[j], indent));
            assert(fits(l[j]));
            assert(is_segment(l[j].text));
            lemma_line_text(l[j], indent);
            if is_name(l[j].text) {
                lemma_name_is_comment(l[j].text);
            }
        }
        lemma_no_names_lead(ts, 0);
        assert(ts[0] == line_text(l[0], indent));
        lemma_line_text(l[0], indent);
        assert(is_segment(l[0].text));
        assert(name_lines(ts, 0) =~= none);
    } else {
        assert(ts =~= seq![]);
        assert(s =~= seq![]);
        lemma_find_from(s, '\n', 0);
        assert(structure_of(s) =~= l);
        assert(name_lines(ts, 0) =~= none);
        assert(none + l =~= l);
    }
    expanding_undoes_minifying(s, indent);
}

/// Lines fold where each stands at most one level below the one before it, and
/// that only behind a line that ends with a colon or is a list item, but not
/// both.
pub proof fn lines_that_step_fold(l: Seq<Line>)
    requires
        l.len() > 0 ==> l[0].depth == 0,
        forall|i: int| 0 <= i < l.len() ==> is_segment((#[trigger] l[i]).text) && is_shut(l[i].text),
        forall|i: int| 0 <= i < l.len() ==> !(ends_with((#[trigger] l[i]).text, ":"@) && starts_with(
            l[i].text,
            "- "@,
        )),
        forall|i: int|
            0 <= i < l.len() - 1 ==> 0 <= (#[trigger] l[i + 1]).depth <= expected_depth(
                l[i].text,
                l[i].depth,
            ),
    ensures
        folds(l),
        begins_flat(l),
{
    reveal(falls_to);
    reveal_strlit(":");
    assert forall|i: int| 0 <= i < l.len() - 1 implies unfolds_to(#[trigger] l[i], l[i + 1]) by {
        let t = l[i].text;
        let n = t.len() as int;
        assert(is_segment(l[i].text) && is_shut(l[i].text));
        assert(l[i + 1].depth <= expected_depth(l[i].text, l[i].depth));
        if i > 0 {
            assert(l[i - 1 + 1].depth >= 0);
        }
        if ends_with(t, ":"@) {
            assert(t.subrange(n - 1, n)[0] == t[n - 1]);
            lemma_rfind_before(t, ':', n);
            assert(t.subrange(n, n) =~= seq![]);
            lemma_trim_bounds(Seq::<char>::empty());
        }
        assert(levels_begun(t) == expected_depth(t, l[i].depth) - l[i].depth);
    }
    assert forall|i: int|
        0 <= i < l.len() && flat_before(l, i) && (#[trigger] l[i]).depth > 0 implies l[i].depth
        == 1 by {
        if i > 0 {
            assert(l[i - 1].depth == 0);
            assert(l[i - 1 + 1].depth <= expected_depth(l[i - 1].text, l[i - 1].depth));
        }
    }
}

/// A document that is minified and expanded again, by at least one space to a
/// level, says what it said.
pub proof fn expanding_keeps_the_value(s: Text, indent: nat)
    requires
        laid_out(s),
        foldable(s),
        indent >= 1,
    ensures
        decode_text(expanded(minified(s), indent)) == decode_text(s),
{
    let names = name_lines(lines(s), 0);
    let l = structure_of(s);
    expanding_undoes_minifying(s, indent);
    lemma_minified_parts(s);
    lemma_layout_is_laid_out(names, l, indent);
    lemma_decode_laid_out(layout(names + l, indent));
    lemma_decode_laid_out(s);
}

/// No newline comes into a document on one line.
proof fn lemma_no_newline(ls: Seq<Text>, indent: nat, i: int, expected: int, first: bool, done: Text)
    requires
        0 <= i <= ls.len(),
        forall|j: int| 0 <= j < ls.len() ==> !(#[trigger] ls[j]).contains('\n'),
        !done.contains('\n'),
    ensures
        !on_one_line(ls, indent, i, expected, first, done).contains('\n'),
    decreases ls.len() - i,
{
    if i < ls.len() {
        let t = trim(ls[i]);
        lemma_trim_no_newline(ls[i]);
        if t.len() == 0 || t[0] == '#' {
            let more = if is_name(t) {
                done + t + seq![';']
            } else {
                done
            };
            assert forall|j: int| 0 <= j < more.len() implies more[j] != '\n' by {
                if j < done.len() {
                    assert(more[j] == done[j]);
                } else if j < done.len() + t.len() {
                    assert(more[j] == t[j - done.len()]);
                }
            }
            lemma_no_newline(ls, indent, i + 1, expected, first, more);
        } else {
            let depth = depth_of(indentation(ls[i]), indent);
            let gap = if first {
                seq![]
            } else {
                semis(semis_before(expected, depth))
            };
            let more = done + gap + t;
            assert forall|j: int| 0 <= j < more.len() implies more[j] != '\n' by {
                if j < done.len() {
                    assert(more[j] == done[j]);
                } else if j >= done.len() + gap.len() {
                    assert(more[j] == t[j - done.len() - gap.len()]);
                }
            }
            lemma_no_newline(ls, indent, i + 1, expected_depth(t, depth), false, more);
        }
    }
}


/// Whether minifying leaves a line out: it is blank, or a comment that does not
/// name the format.
pub open spec fn is_left_out(line: Text) -> bool {
    let t = trim(line);
    t.len() == 0 || (t[0] == '#' && !starts_with(t, "#!scon/"@))
}

/// The lines from `i` on that minifying does not leave out.
pub open spec fn lines_kept(ls: Seq<Text>, i: int) -> Seq<Text>
    decreases ls.len() - i,
{
    if 0 <= i < ls.len() {
        if is_left_out(ls[i]) {
            lines_kept(ls, i + 1)
        } else {
            seq![ls[i]] + lines_kept(ls, i + 1)
        }
    } else {
        seq![]
    }
}

/// Where a line is kept on either side, the two lines and what is kept behind
/// them are the same.
proof fn lemma_kept_heads(a: Text, b: Text, x: Seq<Text>, y: Seq<Text>)
    requires
        seq![a] + x == seq![b] + y,
    ensures
        a == b,
        x == y,
{
    let p = seq![a] + x;
    let q = seq![b] + y;
    assert(p[0] == q[0]);
    assert(x =~= p.subrange(1, p.len() as int));
    assert(y =~= q.subrange(1, q.len() as int));
}

/// Lines of which the same are kept are indented alike.
proof fn lemma_kept_indent(ls: Seq<Text>, i: int, ms: Seq<Text>, j: int)
    requires
        0 <= i <= ls.len(),
        0 <= j <= ms.len(),
        lines_kept(ls, i) == lines_kept(ms, j),
    ensures
        first_indent(ls, i) == first_indent(ms, j),
    decreases ls.len() - i + ms.len() - j,
{
    if i < ls.len() && is_left_out(ls[i]) {
        lemma_kept_indent(ls, i + 1, ms, j);
    } else if j < ms.len() && is_left_out(ms[j]) {
        lemma_kept_indent(ls, i, ms, j + 1);
    } else if i < ls.len() && j < ms.len() {
        lemma_kept_heads(ls[i], ms[j], lines_kept(ls, i + 1), lines_kept(ms, j + 1));
        lemma_kept_indent(ls, i + 1, ms, j + 1);
    } else {
        assert(lines_kept(ls, i).len() == lines_kept(ms, j).len());
    }
}

/// Lines of which the same are kept come to the same on one line.
proof fn lemma_kept_line(
    ls: Seq<Text>,
    i: int,
    ms: Seq<Text>,
    j: int,
    indent: nat,
    expected: int,
    first: bool,
    done: Text,
)
    requires
        0 <= i <= ls.len(),
        0 <= j <= ms.len(),
        lines_kept(ls, i) == lines_kept(ms, j),
    ensures
        on_one_line(ls, indent, i, expected, first, done) == on_one_line(
            ms,
            indent,
            j,
            expected,
            first,
            done,
        ),
    decreases ls.len() - i + ms.len() - j,
{
    if i < ls.len() && is_left_out(ls[i]) {
        lemma_silent_left_out(ls[i]);
        lemma_kept_line(ls, i + 1, ms, j, indent, expected, first, done);
    } else if j < ms.len() && is_left_out(ms[j]) {
        lemma_silent_left_out(ms[j]);
        lemma_kept_line(ls, i, ms, j + 1, indent, expected, first, done);
    } else if i < ls.len() && j < ms.len() {
        lemma_kept_heads(ls[i], ms[j], lines_kept(ls, i + 1), lines_kept(ms, j + 1));
        let t = trim(ls[i]);
        if t[0] == '#' {
            lemma_kept_line(
                ls,
                i + 1,
                ms,
                j + 1,
                indent,
                expected,
                first,
                done + t + seq![';'],
            );
        } else {
            let depth = depth_of(indentation(ls[i]), indent);
            let gap = if first {
                seq![]
            } else {
                semis(semis_before(expected, depth))
            };
            lemma_kept_line(
                ls,
                i + 1,
                ms,
                j + 1,
                indent,
                expected_depth(t, depth),
                false,
                done + gap + t,
            );
        }
    } else {
        assert(lines_kept(ls, i).len() == lines_kept(ms, j).len());
    }
}

/// A blank line does not name the format.
proof fn lemma_silent_left_out(line: Text)
    requires
        is_left_out(line),
    ensures
        !starts_with(trim(line), "#!scon/"@),
{
    reveal_strlit("#!scon/");
}

/// Documents whose lines are the same, blank lines aside and comments that do
/// not name the format, are the same once they are minified.
pub proof fn minifying_ignores_blank_lines_and_comments(s: Text, t: Text)
    requires
        lines_kept(lines(s), 0) == lines_kept(lines(t), 0),
    ensures
        minified(s) == minified(t),
{
    lemma_kept_indent(lines(s), 0, lines(t), 0);
    lemma_kept_line(lines(s), 0, lines(t), 0, line_indent(lines(s)), 0, true, seq![]);
}
/// A minified document stands on one line, whatever was minified.
pub proof fn minified_is_one_line(s: Text)
    ensures
        !minified(s).contains('\n'),
{
    lemma_lines_no_newline(s);
    lemma_no_newline(lines(s), line_indent(lines(s)), 0, 0, true, seq![]);
}

} // verus!
