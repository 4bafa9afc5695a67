//! Entries: what is put and taken out, and which lines stand for them.

use vstd::prelude::*;
use crate::decoder::{
    array_lines, bad, document, field, good, is_item, item_head, item_text, key_value, leading_key,
    more_fields, object_lines,
};
use crate::encoder::key_text;
use crate::lines::{array_header, depth_of, detected_indent, second_indent, Line};
use crate::readback::{
    key_reads, lemma_key_line, lemma_no_colon, lemma_quote_close_escape, lemma_trim_of_trim,
};
use crate::scan::{
    behind_quotes, escape, has_colon, key_colon, lemma_behind_quotes, lemma_key_colon,
    lemma_quote_close, quote_close, unescape_undoes_escape,
};
use crate::schema_registry::Stores;
use crate::semicolons::{lemma_no_dash, lemma_no_item};
use crate::text::{
    find, find_from, indentation, is_space, lemma_find_at, lemma_find_from, lines, trim, Text,
};
use crate::tokens::{inline_value, primitive};
use crate::value::{
    distinct, entry, has_key, key_index, keys, lemma_key_index, put, without, Entries, Val,
};

verus! {

// ---------------------------------------------------------------------------
// Putting and taking out

/// A value under a key that is there takes the place of the one before it; a new
/// key goes behind the others. All other entries stay where they are.
pub proof fn putting_keeps_the_places(s: Entries, k: Text, v: Val, i: int)
    ensures
        (exists|j: int| 0 <= j < s.len() && (#[trigger] s[j]).0 == k) ==> keys(put(s, k, v))
            == keys(s),
        !(exists|j: int| 0 <= j < s.len() && (#[trigger] s[j]).0 == k) ==> keys(put(s, k, v))
            == keys(s).push(k),
        0 <= i < s.len() && s[i].0 != k ==> put(s, k, v)[i] == s[i],
        distinct(s) && 0 <= i < s.len() && s[i].0 == k ==> put(s, k, v)[i] == (k, v),
        !(exists|j: int| 0 <= j < s.len() && (#[trigger] s[j]).0 == k) ==> put(s, k, v).last() == (
            k,
            v,
        ),
{
    lemma_key_index(s, k);
    if has_key(s, k) {
        assert(s[key_index(s, k)].0 == k);
        assert(keys(put(s, k, v)) =~= keys(s));
    } else {
        assert(keys(put(s, k, v)) =~= keys(s).push(k));
    }
}

/// What is taken out is the entry with the key, and the others keep their order.
pub proof fn taking_out_keeps_the_order(a: Entries, k: Text, v: Val, b: Entries)
    requires
        forall|i: int| 0 <= i < a.len() ==> (#[trigger] a[i]).0 != k,
    ensures
        without(a + seq![(k, v)] + b, k) == a + b,
        without(a, k) == a,
{
    let s = a + seq![(k, v)] + b;
    lemma_key_index(s, k);
    lemma_key_index(a, k);
    let n = a.len() as int;
    assert(s[n] == (k, v));
    assert forall|i: int| 0 <= i < n implies (#[trigger] s[i]).0 != k by {
        assert(s[i] == a[i]);
    }
    assert(key_index(s, k) == n);
    assert(s.remove(n) =~= a + b);
}

// ---------------------------------------------------------------------------
// The keys of lines

/// A key in quotes ends at the quote that closes it, and a colon has to follow;
/// another key ends at the first colon, without the spaces around it. Whatever
/// else a line begins with is said to have no end or no colon.
#[verifier::rlimit(40)]
pub proof fn a_key_is_read_up_to_its_colon(k: Text, a: Text, rest: Text, t: Text)
    requires
        !a.contains(':'),
        a.len() > 0 ==> a[0] != '"',
        t.len() > 0,
        t[0] != ':',
    ensures
        leading_key(seq!['"'] + escape(k) + seq!['"', ':'] + rest) == Ok::<(Text, int), Text>(
            (k, escape(k).len() as int + 3),
        ),
        leading_key(seq!['"'] + escape(k) + seq!['"'] + t) == Err::<(Text, int), Text>(
            "Missing colon after key"@,
        ),
        leading_key(seq!['"'] + escape(k) + seq!['"']) == Err::<(Text, int), Text>(
            "Missing colon after key"@,
        ),
        leading_key(a + seq![':'] + rest) == Ok::<(Text, int), Text>(
            (trim(a), a.len() as int + 1),
        ),
        leading_key(a) == Err::<(Text, int), Text>("Missing colon after key"@),
{
    let pre = seq!['"'];
    let e = escape(k);
    let q = 1 + e.len() as int;
    let c1 = pre + e + seq!['"'] + (seq![':'] + rest);
    assert(pre + e + seq!['"', ':'] + rest =~= c1);
    lemma_quote_close_escape(pre, k, seq![':'] + rest);
    assert(c1[0] == '"');
    assert(c1[q + 1] == ':');
    assert(c1.subrange(1, q) =~= e);
    unescape_undoes_escape(k);
    let c2 = pre + e + seq!['"'] + t;
    lemma_quote_close_escape(pre, k, t);
    assert(c2[0] == '"');
    assert(c2[q + 1] == t[0]);
    let c3 = pre + e + seq!['"'];
    lemma_quote_close_escape(pre, k, seq![]);
    assert(c3 + seq![] =~= c3);
    assert(c3[0] == '"');
    let c4 = a + seq![':'] + rest;
    let n = a.len() as int;
    assert(c4[n] == ':');
    assert forall|j: int| 0 <= j < n implies c4[j] != ':' by {
        assert(c4[j] == a[j]);
        assert(a.contains(a[j]));
    }
    lemma_find_at(c4, ':', n);
    assert(c4.subrange(0, n) =~= a);
    if n > 0 {
        assert(c4[0] == a[0]);
    }
    lemma_find_from(a, ':', 0);
    if find(a, ':') is Some {
        assert(a.contains(a[find(a, ':')->0]));
    }
}

/// A key in quotes that nothing closes is refused.
pub proof fn a_key_without_a_closing_quote_is_refused(x: Text)
    requires
        !x.contains('"'),
    ensures
        leading_key(seq!['"'] + x) == Err::<(Text, int), Text>("Unterminated quoted key"@),
{
    let c = seq!['"'] + x;
    lemma_quote_close(c, 1);
    if quote_close(c, 1) is Some {
        let q = quote_close(c, 1)->0;
        assert(c[q] == x[q - 1]);
        assert(x.contains(x[q - 1]));
    }
}

// ---------------------------------------------------------------------------
// The lines of entries

/// A line with a key and a value behind it stands for that entry.
#[verifier::rlimit(40)]
pub proof fn a_line_with_a_value_is_an_entry(
    s: Stores,
    open: Seq<Text>,
    ls: Seq<Line>,
    base: int,
    i: int,
    k: Text,
    v: Text,
    done: Entries,
)
    requires
        0 <= i < ls.len(),
        ls[i].depth == base,
        key_reads(k),
        v.len() > 0,
        !is_space(v[0]),
        !is_space(v.last()),
        ls[i].text == key_text(k) + seq![':', ' '] + v,
    ensures
        ({
            let (x, left) = inline_value(s, open, v);
            object_lines(s, open, ls, base, i, done) == object_lines(
                s,
                left,
                ls,
                base,
                i + 1,
                put(done, k, x),
            )
        }),
{
    let c = ls[i].text;
    let t = key_text(k);
    let rest = seq![' '] + v;
    assert(c =~= t + seq![':'] + rest);
    lemma_key_line(k, rest);
    assert(c.subrange(t.len() as int + 1, c.len() as int) =~= rest);
    lemma_trim_of_trim(v);
    let (x, left) = inline_value(s, open, v);
    assert(key_value(s, open, ls, i, base, t.len() as int) == good((k, x, i + 1), left));
    assert(field(s, open, ls, base, i) == good((Some((k, x)), i + 1), left));
}

/// A line with a key and nothing behind it stands for that key with what stands
/// below it: an empty object where nothing does, and an object where the next line
/// is deeper and no list item.
#[verifier::rlimit(40)]
pub proof fn a_line_with_a_key_takes_what_stands_below(
    s: Stores,
    open: Seq<Text>,
    ls: Seq<Line>,
    base: int,
    i: int,
    k: Text,
    done: Entries,
)
    requires
        0 <= i < ls.len(),
        ls[i].depth == base,
        key_reads(k),
        ls[i].text == key_text(k) + seq![':'],
    ensures
        i + 1 == ls.len() || ls[i + 1].depth <= base ==> object_lines(s, open, ls, base, i, done)
            == object_lines(s, open, ls, base, i + 1, put(done, k, Val::Object(seq![]))),
        i + 1 < ls.len() && ls[i + 1].depth > base && !(ls[i + 1].depth == base + 1 && is_item(
            ls[i + 1].text,
        )) ==> ({
            let below = object_lines(s, open, ls, base + 1, i + 1, seq![]);
            match below.result {
                Ok((o, next)) => next > i ==> object_lines(s, open, ls, base, i, done)
                    == object_lines(s, below.open, ls, base, next, put(done, k, Val::Object(o))),
                Err(m) => object_lines(s, open, ls, base, i, done).result == Err::<
                    (Entries, int),
                    Text,
                >(m),
            }
        }),
{
    let c = ls[i].text;
    let t = key_text(k);
    let none = Seq::<char>::empty();
    assert(c =~= t + seq![':'] + none);
    lemma_key_line(k, none);
    assert(c.subrange(t.len() as int + 1, c.len() as int) =~= none);
    assert(trim(none) =~= none);
    let x = key_value(s, open, ls, i, base, t.len() as int);
    let f = field(s, open, ls, base, i);
    if i + 1 == ls.len() || ls[i + 1].depth <= base {
        assert(x == good((k, Val::Object(Seq::<(Text, Val)>::empty()), i + 1), open));
        assert(f == good((Some((k, Val::Object(Seq::<(Text, Val)>::empty()))), i + 1), open));
    } else if !(ls[i + 1].depth == base + 1 && is_item(ls[i + 1].text)) {
        let below = object_lines(s, open, ls, base + 1, i + 1, seq![]);
        match below.result {
            Ok((o, next)) => {
                assert(x == good((k, Val::Object(o), next), below.open));
                assert(f == good((Some((k, Val::Object(o))), next), below.open));
            },
            Err(m) => {
                assert(x.result == Err::<(Text, Val, int), Text>(m));
                assert(f.result == Err::<(Option<(Text, Val)>, int), Text>(m));
            },
        }
    }
}

/// A line without a colon stands for no entry, and a line that is deeper than the
/// entries around it is passed over.
pub proof fn a_line_that_is_no_entry_is_passed_over(
    s: Stores,
    open: Seq<Text>,
    ls: Seq<Line>,
    base: int,
    i: int,
    done: Entries,
)
    requires
        0 <= i < ls.len(),
        ls[i].depth > base || (ls[i].depth == base && !ls[i].text.contains(':')),
    ensures
        object_lines(s, open, ls, base, i, done) == object_lines(s, open, ls, base, i + 1, done),
{
    if ls[i].depth == base {
        let c = ls[i].text;
        lemma_key_colon(c);
        if key_colon(c) is Some {
            assert(c.contains(c[key_colon(c)->0]));
        }
        lemma_behind_quotes(c);
        lemma_find_from(c, ':', behind_quotes(c));
        if has_colon(c) {
            let j = find_from(c, ':', behind_quotes(c))->0;
            assert(c.contains(c[j]));
        }
        lemma_no_colon(c);
        assert(field(s, open, ls, base, i) == good((None::<(Text, Val)>, i + 1), open));
    }
}

// ---------------------------------------------------------------------------
// Lines and their margins

/// A text is cut into lines at newlines, and at carriage returns before them; what
/// stands behind the last one is a line where it is not empty.
pub proof fn lines_end_at_newlines(a: Text, b: Text)
    requires
        !a.contains('\n'),
        a.len() > 0 ==> a.last() != '\r',
    ensures
        lines(a + seq!['\n'] + b) == seq![a] + lines(b),
        lines(a + seq!['\r', '\n'] + b) == seq![a] + lines(b),
        a.len() > 0 ==> lines(a) == seq![a],
        lines(seq![]) == Seq::<Text>::empty(),
{
    let n = a.len() as int;
    let s = a + seq!['\n'] + b;
    assert(s[n] == '\n');
    assert forall|j: int| 0 <= j < n implies s[j] != '\n' by {
        assert(s[j] == a[j]);
        assert(a.contains(a[j]));
    }
    lemma_find_at(s, '\n', n);
    assert(s.subrange(0, n) =~= a);
    assert(s.subrange(n + 1, s.len() as int) =~= b);
    let t = a + seq!['\r', '\n'] + b;
    assert(t[n + 1] == '\n');
    assert forall|j: int| 0 <= j < n + 1 implies t[j] != '\n' by {
        if j < n {
            assert(t[j] == a[j]);
            assert(a.contains(a[j]));
        }
    }
    lemma_find_at(t, '\n', n + 1);
    let first = t.subrange(0, n + 1);
    assert(first[n] == '\r');
    assert(first.subrange(0, n) =~= a);
    assert(t.subrange(n + 2, t.len() as int) =~= b);
    lemma_find_from(a, '\n', 0);
    if find(a, '\n') is Some {
        assert(a.contains(a[find(a, '\n')->0]));
    }
}

/// The spaces that a line begins with are counted.
pub proof fn spaces_before_a_line_are_counted(n: nat, t: Text)
    requires
        t.len() == 0 || t[0] != ' ',
    ensures
        indentation(Seq::new(n, |i: int| ' ') + t) == n,
    decreases n,
{
    let s = Seq::new(n, |i: int| ' ') + t;
    if n > 0 {
        let m = (n - 1) as nat;
        spaces_before_a_line_are_counted(m, t);
        assert(s.subrange(1, s.len() as int) =~= Seq::new(m, |i: int| ' ') + t);
    } else {
        assert(s =~= t);
    }
}

/// A line stands as deep as the indent fits before it.
pub proof fn depth_counts_indents(depth: nat, indent: nat, more: nat)
    requires
        more < indent,
    ensures
        depth_of(depth * indent + more, indent) == depth,
{
    assert((depth * indent + more) as int / indent as int == depth) by (nonlinear_arith)
        requires
            more < indent,
    ;
}

/// The spaces before the second line tell the indent of a document, where that
/// line has some and says something.
pub proof fn the_second_line_tells_the_indent(a: Text, n: nat, t: Text, other: nat)
    requires
        !a.contains('\n'),
        n > 0,
        t.len() > 0,
        t[0] != ' ' && t[0] != '\t' && t[0] != '\n' && t[0] != '\x0c' && t[0] != '\r',
    ensures
        detected_indent(a + seq!['\n'] + (Seq::new(n, |i: int| ' ') + t), other) == n,
{
    let pad = Seq::new(n, |i: int| ' ');
    let s = a + seq!['\n'] + (pad + t);
    let m = a.len() as int;
    assert(s[m] == '\n');
    assert forall|j: int| 0 <= j < m implies s[j] != '\n' by {
        assert(s[j] == a[j]);
        assert(a.contains(a[j]));
    }
    lemma_find_at(s, '\n', m);
    assert(s.subrange(m + 1, s.len() as int) =~= pad + t);
    spaces_before_a_line_are_counted(n, t);
    assert((pad + t)[n as int] == t[0]);
    assert(second_indent(s) == Some(n));
}
// ---------------------------------------------------------------------------
// Whole documents

/// A document without lines, and one that says `{}`, is an empty object; one line
/// without a colon is the value that it says; a header without a key is an array;
/// and anything else is an object with an entry for each line at the margin.
#[verifier::rlimit(40)]
pub proof fn what_a_document_is(s: Stores, open: Seq<Text>, ls: Seq<Line>)
    ensures
        ls.len() == 0 ==> document(s, open, ls) == good(Val::Object(seq![]), open),
        ls.len() == 1 && ls[0].text == seq!['{', '}'] ==> document(s, open, ls) == good(
            Val::Object(seq![]),
            open,
        ),
        ls.len() == 1 && ls[0].text != seq!['{', '}'] && !ls[0].text.contains(':') ==> document(
            s,
            open,
            ls,
        ) == good(primitive(s, open, ls[0].text).0, primitive(s, open, ls[0].text).1),
        ls.len() > 0 && array_header(ls[0].text) is None && has_colon(ls[0].text) ==> ({
            let t = object_lines(s, open, ls, 0, 0, seq![]);
            document(s, open, ls) == match t.result {
                Ok((o, _)) => good(Val::Object(o), t.open),
                Err(m) => bad(m, t.open),
            }
        }),
        ls.len() > 0 ==> (array_header(ls[0].text) matches Some(h) ==> h.key is None ==> ({
            let t = array_lines(s, open, ls, 0, ls[0].depth, h);
            document(s, open, ls) == match t.result {
                Ok((v, _)) => good(v, t.open),
                Err(m) => bad(m, t.open),
            }
        })),
{
    reveal_strlit("{}");
    assert("{}"@ =~= seq!['{', '}']);
    if ls.len() > 0 {
        let c = ls[0].text;
        lemma_behind_quotes(c);
        lemma_find_from(c, ':', behind_quotes(c));
        if has_colon(c) {
            let j = find_from(c, ':', behind_quotes(c))->0;
            assert(c.contains(c[j]));
        } else {
            lemma_no_colon(c);
        }
        if c == "{}"@ {
            assert(!c.contains(':'));
        }
    }
}
// ---------------------------------------------------------------------------
// The lines of list items

/// What an item says with a key and nothing behind it.
proof fn lemma_item_key(t: Text, k: Text, rest: Text)
    requires
        key_reads(k),
        t == seq!['-', ' '] + key_text(k) + seq![':'] + rest,
    ensures
        item_text(t) == key_text(k) + seq![':'] + rest,
        array_header(item_text(t)) is None,
        leading_key(item_text(t)) == Ok::<(Text, int), Text>((k, key_text(k).len() as int + 1)),
        item_text(t).subrange(key_text(k).len() as int + 1, item_text(t).len() as int) == rest,
{
    let c = key_text(k) + seq![':'] + rest;
    assert(item_text(t) =~= c);
    lemma_key_line(k, rest);
    assert(c.subrange(key_text(k).len() as int + 1, c.len() as int) =~= rest);
}

/// The entries below the key that a list item begins with stand one level below
/// the dash, or two, where the first of them does.
pub proof fn an_item_takes_entries_one_or_two_levels_below(
    s: Stores,
    open: Seq<Text>,
    ls: Seq<Line>,
    base: int,
    i: int,
    k: Text,
    d: int,
)
    requires
        0 <= i,
        i + 1 < ls.len(),
        key_reads(k),
        ls[i].text == seq!['-', ' '] + key_text(k) + seq![':'],
        d == 1 || d == 2,
        ls[i + 1].depth == base + 1 + d,
    ensures
        ({
            let below = object_lines(s, open, ls, base + 1 + d, i + 1, seq![]);
            item_head(s, open, ls, i, base) == match below.result {
                Ok((o, next)) => good((seq![(k, Val::Object(o))], next), below.open),
                Err(m) => bad(m, below.open),
            }
        }),
{
    let none = Seq::<char>::empty();
    let t = ls[i].text;
    assert(t =~= seq!['-', ' '] + key_text(k) + seq![':'] + none);
    lemma_item_key(t, k, none);
    assert(trim(none) =~= none);
}

/// A list item that begins with a key and a value begins an object with that
/// entry; where nothing stands behind the key or below it, the value is an empty
/// object.
pub proof fn an_item_begins_with_its_first_entry(
    s: Stores,
    open: Seq<Text>,
    ls: Seq<Line>,
    base: int,
    i: int,
    k: Text,
    v: Text,
)
    requires
        0 <= i < ls.len(),
        key_reads(k),
        v.len() > 0,
        !is_space(v[0]),
        !is_space(v.last()),
    ensures
        ls[i].text == seq!['-', ' '] + key_text(k) + seq![':', ' '] + v ==> ({
            let (x, left) = inline_value(s, open, v);
            item_head(s, open, ls, i, base) == good((seq![(k, x)], i + 1), left)
        }),
        ls[i].text == seq!['-', ' '] + key_text(k) + seq![':'] && (i + 1 == ls.len() || ls[i
            + 1].depth < base + 2) ==> item_head(s, open, ls, i, base) == good(
            (seq![(k, Val::Object(seq![]))], i + 1),
            open,
        ),
{
    let t = ls[i].text;
    let none = Seq::<char>::empty();
    let rest = seq![' '] + v;
    lemma_trim_of_trim(v);
    assert(trim(none) =~= none);
    if t == seq!['-', ' '] + key_text(k) + seq![':', ' '] + v {
        assert(t =~= seq!['-', ' '] + key_text(k) + seq![':'] + rest);
        lemma_item_key(t, k, rest);
    }
    if t == seq!['-', ' '] + key_text(k) + seq![':'] {
        assert(t =~= seq!['-', ' '] + key_text(k) + seq![':'] + none);
        lemma_item_key(t, k, none);
    }
}

/// The other entries of an object that is a list item stand two levels below the
/// list; a list item there ends them, and so does a line that is less deep.
#[verifier::rlimit(40)]
pub proof fn an_item_takes_the_entries_below_it(
    s: Stores,
    open: Seq<Text>,
    ls: Seq<Line>,
    depth: int,
    i: int,
    k: Text,
    v: Text,
    done: Entries,
)
    requires
        0 <= i < ls.len(),
        key_reads(k),
        v.len() > 0,
        !is_space(v[0]),
        !is_space(v.last()),
    ensures
        ls[i].depth == depth && ls[i].text == key_text(k) + seq![':', ' '] + v ==> ({
            let (x, left) = inline_value(s, open, v);
            more_fields(s, open, ls, depth, i, done) == more_fields(
                s,
                left,
                ls,
                depth,
                i + 1,
                put(done, k, x),
            )
        }),
        ls[i].depth == depth && is_item(ls[i].text) || ls[i].depth < depth ==> more_fields(
            s,
            open,
            ls,
            depth,
            i,
            done,
        ) == good((done, i), open),
{
    let c = ls[i].text;
    let t = key_text(k);
    if c == t + seq![':', ' '] + v && ls[i].depth == depth {
        let rest = seq![' '] + v;
        assert(c =~= t + seq![':'] + rest);
        lemma_key_line(k, rest);
        assert(c.subrange(t.len() as int + 1, c.len() as int) =~= rest);
        lemma_trim_of_trim(v);
        lemma_key_is_no_item(k, seq![':', ' '] + v);
        assert(t + (seq![':', ' '] + v) =~= c);
        let (x, left) = inline_value(s, open, v);
        assert(key_value(s, open, ls, i, depth, t.len() as int) == good((k, x, i + 1), left));
        assert(field(s, open, ls, depth, i) == good((Some((k, x)), i + 1), left));
    }
}

/// A line that begins with a key is no list item.
proof fn lemma_key_is_no_item(k: Text, rest: Text)
    requires
        rest.len() > 0,
        rest[0] == ':',
    ensures
        !is_item(key_text(k) + rest),
{
    lemma_no_dash(k);
    lemma_no_item(key_text(k), rest);
}

} // verus!
