//! Documents on one line, and back: semicolons in place of newlines and
//! indentation.

use vstd::prelude::*;
use crate::encoder::{layout, lemma_layout_append, line_text, spaces};
use crate::lines::{
    depth_behind, depth_of, find_first_indent, first_indent, lemma_text_total, segment_views,
    segments, split_segments, text_total, Line, Segment,
};
use crate::text::{
    begins, chars_of, ends, ends_with, indentation, indentation_of, last_position, line_list, lines,
    part, rfind, starts_with, texts, trim, trimmed, Text,
};

verus! {

// ---------------------------------------------------------------------------
// From lines to one line

/// The number of spaces by which a document indents.
pub open spec fn line_indent(ls: Seq<Text>) -> nat {
    match first_indent(ls, 0) {
        Some(n) => n,
        None => 1,
    }
}

/// The depth at which the lines behind `t` are expected, where `t` stands at
/// depth `depth`: a key without a value opens a level, and so does a list item.
pub open spec fn expected_depth(t: Text, depth: int) -> int {
    if ends_with(t, ":"@) || starts_with(t, "- "@) {
        depth + 1
    } else {
        depth
    }
}

/// The number of semicolons before a line at depth `depth` where `expected` was
/// expected: one, and one more for each level that closes.
pub open spec fn semis_before(expected: int, depth: int) -> int {
    if expected > depth {
        expected - depth + 1
    } else {
        1
    }
}

/// A row of semicolons.
pub open spec fn semis(n: int) -> Text {
    Seq::new(if n > 0 { n as nat } else { 0 }, |i: int| ';')
}

/// `done` with the lines from `i` on behind it, on one line. `expected` is the
/// depth that is expected next; `first` tells whether no line was written yet.
/// Empty lines and comments are left out, but for one that names the format.
pub open spec fn on_one_line(
    ls: Seq<Text>,
    indent: nat,
    i: int,
    expected: int,
    first: bool,
    done: Text,
) -> Text
    decreases ls.len() - i,
{
    if 0 <= i < ls.len() {
        let t = trim(ls[i]);
        if t.len() == 0 || t[0] == '#' {
            let more = if starts_with(t, "#!scon/"@) {
                done + t + seq![';']
            } else {
                done
            };
            on_one_line(ls, indent, i + 1, expected, first, more)
        } else {
            let depth = depth_of(indentation(ls[i]), indent);
            let gap = if first {
                seq![]
            } else {
                semis(semis_before(expected, depth))
            };
            on_one_line(ls, indent, i + 1, expected_depth(t, depth), false, done + gap + t)
        }
    } else {
        done
    }
}

/// A document on one line.
pub open spec fn minified(s: Text) -> Text {
    on_one_line(lines(s), line_indent(lines(s)), 0, 0, true, seq![])
}

// ---------------------------------------------------------------------------
// From one line to lines

/// Whether something stands behind the last colon of `t`.
pub open spec fn has_value_behind(t: Text) -> bool {
    match rfind(t, ':') {
        Some(k) => trim(t.subrange(k + 1, t.len() as int)).len() > 0,
        None => false,
    }
}

/// How much deeper the line `t` takes what follows it.
pub open spec fn levels_begun(t: Text) -> nat {
    (if ends_with(t, ":"@) && !has_value_behind(t) {
        1nat
    } else {
        0nat
    }) + (if starts_with(t, "- "@) {
        1nat
    } else {
        0nat
    })
}

/// The lines that the segments from `i` on stand for at depth `depth`, behind
/// `done`.
pub open spec fn segment_lines(g: Seq<Segment>, i: int, depth: nat, done: Seq<Line>) -> Seq<Line>
    decreases g.len() - i,
{
    if 0 <= i < g.len() {
        let t = g[i].text;
        if t.len() == 0 {
            segment_lines(g, i + 1, depth_behind(depth, g[i].semis), done)
        } else {
            segment_lines(
                g,
                i + 1,
                depth_behind(depth + levels_begun(t), g[i].semis),
                done.push(Line { depth: depth as int, text: t }),
            )
        }
    } else {
        done
    }
}

/// A document on one line written out, with `indent` spaces to a level.
pub open spec fn expanded(s: Text, indent: nat) -> Text {
    layout(segment_lines(segments(s), 0, 0, seq![]), indent)
}

/// A line begins no more levels than it has characters.
proof fn lemma_levels_begun(t: Text)
    ensures
        levels_begun(t) <= t.len(),
{
    reveal_strlit(":");
    reveal_strlit("- ");
}

// ---------------------------------------------------------------------------
// The minifier

/// Puts documents on one line and writes them out again.
pub struct Minifier;

impl Minifier {
    /// A document on one line: a semicolon stands for a newline, and one more
    /// for each level that closes.
    pub fn minify(scon: &str) -> (r: String)
        ensures
            r@ == minified(scon@),
    {
        let ls = line_list(scon);
        let ghost all = texts(ls@);
        let indent: usize = Minifier::detect_indent(scon);
        let mut out: String = String::new();
        let mut expected: i128 = 0;
        let mut first = true;
        let mut i: usize = 0;
        assert(out@ =~= seq![]);
        while i < ls.len()
            invariant
                i <= ls@.len(),
                all == texts(ls@),
                0 <= expected <= usize::MAX + 1,
                minified(scon@) == on_one_line(
                    all,
                    indent as nat,
                    i as int,
                    expected as int,
                    first,
                    out@,
                ),
            decreases ls@.len() - i,
        {
            let line: &str = ls[i];
            let t = trimmed(line);
            let cs = chars_of(t);
            let ghost before = out@;
            if cs.len() == 0 || cs[0] == '#' {
                if begins(t, "#!scon/") {
                    out.push_str(t);
                    out.push(';');
                    assert(out@ =~= before + t@ + seq![';']);
                }
            } else {
                let depth: i128 = Minifier::calculate_depth(line, indent) as i128;
                if !first {
                    let count: i128 = if expected > depth {
                        expected - depth + 1
                    } else {
                        1
                    };
                    push_semis(&mut out, count);
                }
                out.push_str(t);
                proof {
                    let gap = if first {
                        seq![]
                    } else {
                        semis(semis_before(expected as int, depth as int))
                    };
                    assert(out@ =~= before + gap + t@);
                }
                expected = if ends(t, ":") || begins(t, "- ") {
                    depth + 1
                } else {
                    depth
                };
                first = false;
            }
            i += 1;
        }
        out
    }

    /// A document on one line written out, with `indent` spaces to a level.
    pub fn expand(minified: &str, indent: usize) -> (r: String)
        ensures
            r@ == expanded(minified@, indent as nat),
    {
        let g = split_segments(minified);
        proof {
            lemma_text_total(minified@);
        }
        let ghost all = segment_views(g@);
        let ghost ind = indent as nat;
        let ghost mut done: Seq<Line> = seq![];
        let mut out: String = String::new();
        let mut depth: usize = 0;
        let mut first = true;
        let mut i: usize = 0;
        assert(out@ =~= layout(done, ind));
        while i < g.len()
            invariant
                i <= g@.len(),
                all == segment_views(g@),
                ind == indent as nat,
                depth + text_total(all, i as int) <= usize::MAX,
                out@ == layout(done, ind),
                first == (done.len() == 0),
                segment_lines(all, 0, 0, seq![]) == segment_lines(
                    all,
                    i as int,
                    depth as nat,
                    done,
                ),
            decreases g@.len() - i,
        {
            let t: &str = g[i].content;
            let count: usize = g[i].semis;
            assert(all[i as int] == g@[i as int]@);
            if !t.is_empty() {
                let ghost before = out@;
                if !first {
                    out.push('\n');
                }
                push_indent(&mut out, indent, depth);
                out.push_str(t);
                proof {
                    let l = Line { depth: depth as int, text: t@ };
                    lemma_layout_append(done, seq![l], ind);
                    assert(done + seq![l] =~= done.push(l));
                    assert(layout(seq![l], ind) == line_text(l, ind));
                    assert(out@ =~= layout(done.push(l), ind));
                    done = done.push(l);
                    lemma_levels_begun(t@);
                }
                first = false;
                if ends(t, ":") && !Minifier::has_value_after_colon(t) {
                    depth += 1;
                }
                if begins(t, "- ") {
                    depth += 1;
                }
            }
            if count >= 2 {
                if depth >= count - 1 {
                    depth -= count - 1;
                } else {
                    depth = 0;
                }
            }
            i += 1;
        }
        out
    }

    /// Whether something stands behind the last colon.
    fn has_value_after_colon(s: &str) -> (r: bool)
        ensures
            r == has_value_behind(s@),
    {
        let cs = chars_of(s);
        let n: usize = cs.len();
        match last_position(&cs, ':') {
            Some(k) => !trimmed(part(s, k + 1, n)).is_empty(),
            None => false,
        }
    }

    /// The number of spaces by which a document indents.
    fn detect_indent(scon: &str) -> (r: usize)
        ensures
            r == line_indent(lines(scon@)),
    {
        match find_first_indent(&line_list(scon)) {
            Some(n) => n,
            None => 1,
        }
    }

    /// How deep a line stands.
    fn calculate_depth(line: &str, indent: usize) -> (r: usize)
        ensures
            r == depth_of(indentation(line@), indent as nat),
    {
        let spaces: usize = indentation_of(line);
        if indent > 0 {
            spaces / indent
        } else {
            0
        }
    }
}

/// Appends a row of semicolons.
fn push_semis(out: &mut String, n: i128)
    ensures
        final(out)@ == old(out)@ + semis(n as int),
{
    let mut i: i128 = 0;
    assert(out@ =~= old(out)@ + semis(0));
    while i < n
        invariant
            0 <= i,
            i <= n || n < 0,
            n < 0 ==> i == 0,
            out@ == old(out)@ + semis(i as int),
        decreases n - i,
    {
        out.push(';');
        assert(semis(i + 1) =~= semis(i as int).push(';'));
        i += 1;
    }
    assert(n <= 0 ==> semis(n as int) =~= semis(0));
}

/// Appends what stands before a line at a depth.
fn push_indent(out: &mut String, indent: usize, depth: usize)
    ensures
        final(out)@ == old(out)@ + spaces(indent as nat * depth as int),
{
    let mut d: usize = 0;
    assert(indent as nat * 0int == 0) by (nonlinear_arith);
    assert(out@ =~= old(out)@ + spaces(0));
    while d < depth
        invariant
            d <= depth,
            out@ == old(out)@ + spaces(indent as nat * d as int),
        decreases depth - d,
    {
        let ghost before = out@;
        let ghost k = indent as nat * d as int;
        let mut i: usize = 0;
        assert(out@ =~= before + spaces(0));
        while i < indent
            invariant
                i <= indent,
                out@ == before + spaces(i as int),
            decreases indent - i,
        {
            out.push(' ');
            assert(spaces(i + 1) =~= spaces(i as int).push(' '));
            i += 1;
        }
        proof {
            assert(indent as nat * (d + 1) == k + indent) by (nonlinear_arith)
                requires
                    k == indent as nat * d as int,
            ;
            assert(k >= 0) by (nonlinear_arith)
                requires
                    k == indent as nat * d as int,
                    d >= 0,
            ;
            assert(spaces(k) + spaces(indent as int) =~= spaces(k + indent));
            assert(old(out)@ + spaces(k) + spaces(indent as int) =~= old(out)@ + (spaces(k) + spaces(
                indent as int,
            )));
        }
        d += 1;
    }
}

} // verus!
