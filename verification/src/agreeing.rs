//! A tape and a decoder find the same in a document.

use vstd::prelude::*;
use crate::lines::bare_key;
use crate::scan::{
    brace_content, bracket_close, key_colon, lemma_brace_span, lemma_bracket_close, lemma_key_colon,
    lemma_pieces, outside, pieces, unescape,
};
use crate::schema_registry::{resolved, Stores};
use crate::tape::{
    flat, flat_entries, flat_items, plain_mark, tape_delimited, tape_entries, tape_inline,
    tape_pieces, tape_primitive, Mark,
};
use crate::text::{find, find_text, lemma_trim_len, split_text, trim, Text};
use crate::tokens::{
    choices, delimited, inline_entries, inline_value, is_reference, lemma_reference_head, primitive,
    reference, reference_head, reference_parts, unquoted,
};
use crate::value::{
    distinct, entries_well_keyed, items_well_keyed, lemma_entry_keyed, lemma_put_new, put,
    well_keyed, Entries, Val,
};
use crate::whole::{lemma_entries_concat, lemma_items_push};

verus! {

// ---------------------------------------------------------------------------
// Values as they stand on a tape

/// Whether a name is the one that stands on a tape, with its escapes or without
/// them.
pub open spec fn name_mirrors(k: Text, raw: Text) -> bool {
    k == raw || k == unescape(raw)
}

/// The entries one after the other, each put under its key.
pub open spec fn put_all(q: Entries) -> Entries
    decreases q.len(),
{
    if q.len() == 0 {
        seq![]
    } else {
        put(put_all(q.drop_last()), q.last().0, q.last().1)
    }
}

/// Whether `v` is what the value `w` on a tape stands for: texts on a tape may
/// keep their escapes, and of the entries of an object that have one key the last
/// has the value and the first the place.
pub open spec fn mirrors(v: Val, w: Val) -> bool
    decreases w, 0int,
{
    v == w || match (v, w) {
        (Val::Str(a), Val::Str(b)) => name_mirrors(a, b),
        (Val::Array(a), Val::Array(b)) => a.len() == b.len() && items_mirror(a, b, b.len() as int),
        (Val::Object(o), Val::Object(b)) => exists|q: Entries|
            o == #[trigger] put_all(q) && q.len() == b.len() && entries_mirror(
                q,
                b,
                b.len() as int,
            ),
        _ => false,
    }
}

/// Whether the first `n` items are what those on a tape stand for.
pub open spec fn items_mirror(a: Seq<Val>, b: Seq<Val>, n: int) -> bool
    decreases b, n,
{
    if 0 < n <= b.len() {
        mirrors(a[n - 1], b[n - 1]) && items_mirror(a, b, n - 1)
    } else {
        true
    }
}

/// Whether the first `n` entries are what those on a tape stand for.
pub open spec fn entries_mirror(q: Entries, b: Entries, n: int) -> bool
    decreases b, n,
{
    if 0 < n <= b.len() {
        name_mirrors(q[n - 1].0, b[n - 1].0) && mirrors(q[n - 1].1, b[n - 1].1) && entries_mirror(
            q,
            b,
            n - 1,
        )
    } else {
        true
    }
}

/// Items that stand for others, with more behind them.
pub proof fn lemma_items_mirror(a: Seq<Val>, b: Seq<Val>, v: Val, w: Val, n: int)
    requires
        0 <= n <= b.len(),
        a.len() == b.len(),
        items_mirror(a, b, n),
    ensures
        items_mirror(a.push(v), b.push(w), n),
        n == b.len() && mirrors(v, w) ==> items_mirror(a.push(v), b.push(w), n + 1),
    decreases n,
{
    if n > 0 {
        lemma_items_mirror(a, b, v, w, n - 1);
        assert(a.push(v)[n - 1] == a[n - 1] && b.push(w)[n - 1] == b[n - 1]);
    }
    assert(items_mirror(a.push(v), b.push(w), n));
    if n == b.len() {
        assert(a.push(v)[n] == v && b.push(w)[n] == w);
        assert(b.push(w).len() == n + 1);
    }
}

/// Entries that stand for others, with more behind them.
pub proof fn lemma_entries_mirror(q: Entries, b: Entries, x: (Text, Val), y: (Text, Val), n: int)
    requires
        0 <= n <= b.len(),
        q.len() == b.len(),
        entries_mirror(q, b, n),
    ensures
        entries_mirror(q.push(x), b.push(y), n),
        n == b.len() && name_mirrors(x.0, y.0) && mirrors(x.1, y.1) ==> entries_mirror(
            q.push(x),
            b.push(y),
            n + 1,
        ),
    decreases n,
{
    if n > 0 {
        lemma_entries_mirror(q, b, x, y, n - 1);
        assert(q.push(x)[n - 1] == q[n - 1] && b.push(y)[n - 1] == b[n - 1]);
    }
    assert(entries_mirror(q.push(x), b.push(y), n));
    if n == b.len() {
        assert(q.push(x)[n] == x && b.push(y)[n] == y);
        assert(b.push(y).len() == n + 1);
    }
}

/// Whether no text in a value has a backslash in it.
pub open spec fn no_escapes(w: Val) -> bool
    decreases w, 0int,
{
    match w {
        Val::Str(s) => !s.contains('\\'),
        Val::Array(a) => items_no_escapes(a, a.len() as int),
        Val::Object(o) => entries_no_escapes(o, o.len() as int),
        _ => true,
    }
}

/// Whether no text in the first `n` items has a backslash in it.
pub open spec fn items_no_escapes(a: Seq<Val>, n: int) -> bool
    decreases a, n,
{
    if 0 < n <= a.len() {
        no_escapes(a[n - 1]) && items_no_escapes(a, n - 1)
    } else {
        true
    }
}

/// Whether no text in the first `n` entries has a backslash in it.
pub open spec fn entries_no_escapes(o: Entries, n: int) -> bool
    decreases o, n,
{
    if 0 < n <= o.len() {
        !o[n - 1].0.contains('\\') && no_escapes(o[n - 1].1) && entries_no_escapes(o, n - 1)
    } else {
        true
    }
}

/// A text without backslashes has no escapes.
proof fn lemma_unescape_plain(t: Text)
    requires
        !t.contains('\\'),
    ensures
        unescape(t) == t,
    decreases t.len(),
{
    if t.len() > 0 {
        let rest = t.subrange(1, t.len() as int);
        assert(t[0] != '\\');
        assert(!rest.contains('\\')) by {
            if rest.contains('\\') {
                let j = choose|j: int| 0 <= j < rest.len() && rest[j] == '\\';
                assert(t[j + 1] == '\\');
            }
        }
        lemma_unescape_plain(rest);
        assert(seq![t[0]] + rest =~= t);
    }
}

/// Where no text on a tape has a backslash in it, and no object there a key
/// twice, what stands on the tape is the value itself.
pub proof fn without_escapes_a_tape_is_exact(v: Val, w: Val)
    requires
        mirrors(v, w),
        no_escapes(w),
        well_keyed(w),
    ensures
        v == w,
    decreases w, 0int,
{
    if v != w {
        match (v, w) {
            (Val::Str(a), Val::Str(b)) => {
                lemma_unescape_plain(b);
            },
            (Val::Array(a), Val::Array(b)) => {
                assert(decreases_to!(w => b));
                lemma_items_exact(a, b, b.len() as int);
                assert(a =~= b);
            },
            (Val::Object(o), Val::Object(b)) => {
                assert(decreases_to!(w => b));
                let q = choose|q: Entries|
                    o == #[trigger] put_all(q) && q.len() == b.len() && entries_mirror(
                        q,
                        b,
                        b.len() as int,
                    );
                lemma_entries_exact(q, b, b.len() as int);
                assert(q =~= b);
                lemma_put_all(q);
            },
            _ => {},
        }
    }
}

/// Items without escapes are those on the tape.
proof fn lemma_items_exact(a: Seq<Val>, b: Seq<Val>, n: int)
    requires
        0 <= n <= b.len(),
        a.len() == b.len(),
        items_mirror(a, b, n),
        items_no_escapes(b, n),
        items_well_keyed(b, 0),
    ensures
        forall|i: int| 0 <= i < n ==> a[i] == b[i],
    decreases b, n,
{
    if n > 0 {
        lemma_items_exact(a, b, n - 1);
        lemma_item_well_keyed(b, 0, n - 1);
        assert(decreases_to!(b => b[n - 1]));
        without_escapes_a_tape_is_exact(a[n - 1], b[n - 1]);
    }
}

/// An item among items without a key twice.
proof fn lemma_item_well_keyed(a: Seq<Val>, i: int, k: int)
    requires
        items_well_keyed(a, i),
        0 <= i <= k < a.len(),
    ensures
        well_keyed(a[k]),
    decreases k - i,
{
    if i < k {
        lemma_item_well_keyed(a, i + 1, k);
    }
}

/// Entries without escapes are those on the tape.
proof fn lemma_entries_exact(q: Entries, b: Entries, n: int)
    requires
        0 <= n <= b.len(),
        q.len() == b.len(),
        entries_mirror(q, b, n),
        entries_no_escapes(b, n),
        entries_well_keyed(b, 0),
    ensures
        forall|i: int| 0 <= i < n ==> q[i] == b[i],
    decreases b, n,
{
    if n > 0 {
        lemma_entries_exact(q, b, n - 1);
        lemma_entry_keyed(b, 0, n - 1);
        lemma_unescape_plain(b[n - 1].0);
        assert(decreases_to!(b => b[n - 1]));
        assert(decreases_to!(b[n - 1] => b[n - 1].1));
        without_escapes_a_tape_is_exact(q[n - 1].1, b[n - 1].1);
    }
}

/// Entries without a key twice, each put under its key.
proof fn lemma_put_all(q: Entries)
    requires
        distinct(q),
    ensures
        put_all(q) == q,
    decreases q.len(),
{
    if q.len() > 0 {
        let rest = q.drop_last();
        assert forall|i: int, j: int| 0 <= i < j < rest.len() implies rest[i].0 != rest[j].0 by {
            assert(rest[i] == q[i] && rest[j] == q[j]);
        }
        lemma_put_all(rest);
        assert forall|j: int| 0 <= j < rest.len() implies (#[trigger] rest[j]).0 != q.last().0 by {
            assert(rest[j] == q[j]);
        }
        lemma_put_new(rest, q.last().0, q.last().1);
        assert(rest.push((q.last().0, q.last().1)) =~= q);
    } else {
        assert(q =~= seq![]);
    }
}

/// One entry more.
pub proof fn lemma_put_all_push(q: Entries, k: Text, v: Val)
    ensures
        put_all(q.push((k, v))) == put(put_all(q), k, v),
{
    assert(q.push((k, v)).drop_last() =~= q);
}

// ---------------------------------------------------------------------------
// Reading tokens leaves the references alone that are being resolved

/// A primitive.
pub proof fn lemma_open_primitive(s: Stores, open: Seq<Text>, token: Text)
    ensures
        primitive(s, open, token).1 == open,
    decreases token.len(), 2nat, 0nat,
{
    let t = trim(token);
    if t.len() > 0 && is_reference(t) {
        lemma_trim_len(token);
        lemma_open_reference(s, open, t);
    }
}

/// Alternatives.
proof fn lemma_open_choices(s: Stores, open: Seq<Text>, parts: Seq<Text>, i: int, done: Seq<Val>)
    ensures
        choices(s, open, parts, i, done).1 == open,
    decreases parts.len() - i,
{
    if 0 <= i < parts.len() {
        match reference_parts(parts[i]) {
            Some((d, name)) => match resolved(s, open, d, name) {
                Ok(v) => {
                    lemma_open_choices(s, open, parts, i + 1, done.push(v));
                },
                Err(_) => {
                    lemma_open_choices(s, open, parts, i + 1, done);
                },
            },
            None => {
                lemma_open_choices(s, open, parts, i + 1, done);
            },
        }
    }
}

/// A reference.
proof fn lemma_open_reference(s: Stores, open: Seq<Text>, t: Text)
    ensures
        reference(s, open, t).1 == open,
    decreases t.len(), 1nat, 0nat,
{
    if find_text(t, " | "@, 0) is Some {
        lemma_open_choices(s, open, split_text(t, " | "@), 0, seq![]);
    } else {
        match reference_parts(reference_head(t)) {
            Some((d, name)) => {
                if let Some(b) = find(t, '{') {
                    lemma_reference_head(t);
                    lemma_open_inline(s, open, t.subrange(b, t.len() as int));
                }
            },
            None => {},
        }
    }
}

/// Values between delimiters.
proof fn lemma_open_delimited(
    s: Stores,
    open: Seq<Text>,
    x: Text,
    d: char,
    i: int,
    done: Seq<Val>,
)
    ensures
        delimited(s, open, x, d, i, done).1 == open,
    decreases x.len(), 3nat, pieces(x, d).len() - i,
{
    if 0 <= i < pieces(x, d).len() {
        lemma_pieces(x, d);
        lemma_open_primitive(s, open, pieces(x, d)[i]);
        let v = primitive(s, open, pieces(x, d)[i]).0;
        lemma_open_delimited(s, open, x, d, i + 1, done.push(v));
    }
}

/// A value on one line.
proof fn lemma_open_inline(s: Stores, open: Seq<Text>, input: Text)
    ensures
        inline_value(s, open, input).1 == open,
    decreases input.len(), 4nat, 0nat,
{
    let t = trim(input);
    lemma_trim_len(input);
    lemma_brace_span(t, 0, outside(), 0);
    lemma_bracket_close(t, 0, outside());
    if t.len() > 0 && t[0] == '{' && brace_content(t) is Some {
        lemma_open_entries(s, open, brace_content(t)->0, 0, seq![]);
    } else if t.len() > 0 && t[0] == '[' && bracket_close(t, 0, outside()) is Some {
        lemma_open_delimited(
            s,
            open,
            t.subrange(1, bracket_close(t, 0, outside())->0),
            ',',
            0,
            seq![],
        );
    } else {
        lemma_open_primitive(s, open, t);
    }
}

/// Entries on one line.
proof fn lemma_open_entries(s: Stores, open: Seq<Text>, x: Text, i: int, done: Entries)
    ensures
        inline_entries(s, open, x, i, done).1 == open,
    decreases x.len(), 5nat, pieces(x, ',').len() - i,
{
    if 0 <= i < pieces(x, ',').len() {
        lemma_pieces(x, ',');
        lemma_trim_len(pieces(x, ',')[i]);
        let p = trim(pieces(x, ',')[i]);
        lemma_key_colon(p);
        match key_colon(p) {
            Some(k) => {
                let c = p.subrange(k + 1, p.len() as int);
                lemma_open_inline(s, open, c);
                let v = inline_value(s, open, c).0;
                lemma_open_entries(s, open, x, i + 1, put(done, unquoted(p.subrange(0, k)), v));
            },
            None => {
                lemma_open_entries(s, open, x, i + 1, done);
            },
        }
    }
}

// ---------------------------------------------------------------------------
// Tokens

/// The value on a tape that a token stands for.
pub open spec fn raw_token(t: Text) -> Val {
    match plain_mark(t) {
        Mark::Bool(b) => Val::Bool(b),
        Mark::Integer(n) => Val::Integer(n),
        Mark::Float(d) => Val::Float(d),
        Mark::Str(u) => Val::Str(u),
        _ => Val::Null,
    }
}

/// The value on a tape that a primitive stands for.
pub open spec fn raw_primitive(s: Stores, open: Seq<Text>, token: Text) -> Val {
    let t = trim(token);
    if t.len() == 0 {
        Val::Str(seq![])
    } else if t == "[]"@ {
        Val::Array(seq![])
    } else if t == "{}"@ {
        Val::Object(seq![])
    } else if is_reference(t) {
        reference(s, open, t).0
    } else {
        raw_token(t)
    }
}

/// A primitive on a tape.
pub proof fn lemma_primitive(s: Stores, open: Seq<Text>, token: Text)
    ensures
        primitive(s, open, token).1 == open,
        tape_primitive(s, open, token) == (flat(raw_primitive(s, open, token)), open),
        mirrors(primitive(s, open, token).0, raw_primitive(s, open, token)),
{
    let t = trim(token);
    let w = raw_primitive(s, open, token);
    lemma_open_primitive(s, open, token);
    if t.len() == 0 {
        assert(flat(w) =~= seq![Mark::Str(seq![])]);
    } else if t == "[]"@ {
        assert(flat_items(seq![], 0) =~= seq![]);
        assert(flat(w) =~= seq![Mark::Array(0)]);
    } else if t == "{}"@ {
        assert(flat_entries(seq![], 0) =~= seq![]);
        assert(flat(w) =~= seq![Mark::Object(0)]);
    } else if is_reference(t) {
        lemma_open_reference(s, open, t);
    } else {
        assert(flat(w) =~= seq![plain_mark(t)]);
    }
}

/// The values on a tape that tokens stand for.
pub open spec fn raw_primitives(s: Stores, open: Seq<Text>, parts: Seq<Text>) -> Seq<Val> {
    Seq::new(parts.len(), |i: int| raw_primitive(s, open, parts[i]))
}

/// The nodes of tokens.
proof fn lemma_pieces_taped(s: Stores, open: Seq<Text>, parts: Seq<Text>, i: int)
    requires
        0 <= i <= parts.len(),
    ensures
        tape_pieces(
            s,
            open,
            parts,
            i,
            flat_items(raw_primitives(s, open, parts).subrange(0, i), 0),
        ) == (flat_items(raw_primitives(s, open, parts), 0), open),
    decreases parts.len() - i,
{
    let all = raw_primitives(s, open, parts);
    let done = all.subrange(0, i);
    if i < parts.len() {
        lemma_primitive(s, open, parts[i]);
        lemma_items_push(done, all[i], 0);
        assert(done.push(all[i]) =~= all.subrange(0, i + 1));
        lemma_pieces_taped(s, open, parts, i + 1);
    } else {
        assert(done =~= all);
    }
}

/// The values of tokens.
pub proof fn lemma_pieces_read(s: Stores, open: Seq<Text>, x: Text, d: char, i: int, done: Seq<Val>)
    requires
        0 <= i <= pieces(x, d).len(),
        done.len() == i,
        forall|j: int| 0 <= j < i ==> #[trigger] done[j] == primitive(s, open, pieces(x, d)[j]).0,
    ensures
        ({
            let (a, then) = delimited(s, open, x, d, i, done);
            &&& then == open
            &&& a.len() == pieces(x, d).len()
            &&& forall|j: int|
                0 <= j < a.len() ==> #[trigger] a[j] == primitive(s, open, pieces(x, d)[j]).0
        }),
    decreases pieces(x, d).len() - i,
{
    if i < pieces(x, d).len() {
        lemma_open_primitive(s, open, pieces(x, d)[i]);
        let v = primitive(s, open, pieces(x, d)[i]).0;
        assert forall|j: int| 0 <= j < i + 1 implies #[trigger] done.push(v)[j] == primitive(
            s,
            open,
            pieces(x, d)[j],
        ).0 by {
            if j < i {
                assert(done.push(v)[j] == done[j]);
            }
        }
        lemma_pieces_read(s, open, x, d, i + 1, done.push(v));
    }
}

/// Values that are those of tokens, and the ones on a tape.
proof fn lemma_primitives_mirror(
    s: Stores,
    open: Seq<Text>,
    parts: Seq<Text>,
    a: Seq<Val>,
    n: int,
)
    requires
        0 <= n <= parts.len(),
        a.len() == parts.len(),
        forall|j: int| 0 <= j < a.len() ==> #[trigger] a[j] == primitive(s, open, parts[j]).0,
    ensures
        items_mirror(a, raw_primitives(s, open, parts), n),
    decreases n,
{
    if n > 0 {
        lemma_primitives_mirror(s, open, parts, a, n - 1);
        lemma_primitive(s, open, parts[n - 1]);
        assert(a[n - 1] == primitive(s, open, parts[n - 1]).0);
    }
}

/// An array on one line.
pub proof fn lemma_delimited(s: Stores, open: Seq<Text>, x: Text, d: char) -> (w: Val)
    ensures
        tape_delimited(s, open, x, d) == (flat(w), open),
        delimited(s, open, x, d, 0, seq![]).1 == open,
        mirrors(Val::Array(delimited(s, open, x, d, 0, seq![]).0), w),
{
    let parts = pieces(x, d);
    let all = raw_primitives(s, open, parts);
    let none: Seq<Val> = seq![];
    assert(all.subrange(0, 0) =~= none);
    assert(flat_items(none, 0) =~= seq![]);
    lemma_pieces_taped(s, open, parts, 0);
    lemma_pieces_read(s, open, x, d, 0, none);
    let a = delimited(s, open, x, d, 0, none).0;
    lemma_primitives_mirror(s, open, parts, a, parts.len() as int);
    Val::Array(all)
}

/// The name of a key, and the one on a tape.
proof fn lemma_unquoted(t: Text)
    ensures
        name_mirrors(unquoted(t), bare_key(t)),
{
}

/// A value on one line.
pub proof fn lemma_inline(s: Stores, open: Seq<Text>, input: Text) -> (w: Val)
    ensures
        tape_inline(s, open, input) == (flat(w), open),
        inline_value(s, open, input).1 == open,
        mirrors(inline_value(s, open, input).0, w),
    decreases input.len(), 0nat, 0nat,
{
    let t = trim(input);
    lemma_trim_len(input);
    lemma_brace_span(t, 0, outside(), 0);
    lemma_open_inline(s, open, input);
    if t.len() > 0 && t[0] == '{' && brace_content(t) is Some {
        let none: Entries = seq![];
        assert(flat_entries(none, 0) =~= seq![]);
        assert(put_all(none) == none);
        let (q, b) = lemma_inline_entries(s, open, brace_content(t)->0, 0, none, none);
        assert(mirrors(Val::Object(put_all(q)), Val::Object(b)));
        Val::Object(b)
    } else if t.len() > 0 && t[0] == '[' && bracket_close(t, 0, outside()) is Some {
        lemma_delimited(s, open, t.subrange(1, bracket_close(t, 0, outside())->0), ',')
    } else {
        lemma_primitive(s, open, t);
        raw_primitive(s, open, t)
    }
}

/// Entries on one line, behind `q`, which stand as `b` on the tape.
proof fn lemma_inline_entries(
    s: Stores,
    open: Seq<Text>,
    x: Text,
    i: int,
    q: Entries,
    b: Entries,
) -> (r: (Entries, Entries))
    requires
        0 <= i <= pieces(x, ',').len(),
        q.len() == b.len(),
        entries_mirror(q, b, b.len() as int),
    ensures
        inline_entries(s, open, x, i, put_all(q)) == (put_all(r.0), open),
        tape_entries(s, open, x, i, flat_entries(b, 0), b.len()) == (
            flat_entries(r.1, 0),
            r.1.len(),
            open,
        ),
        r.0.len() == r.1.len(),
        entries_mirror(r.0, r.1, r.1.len() as int),
    decreases x.len(), 1nat, pieces(x, ',').len() - i,
{
    if i < pieces(x, ',').len() {
        lemma_pieces(x, ',');
        lemma_trim_len(pieces(x, ',')[i]);
        let p = trim(pieces(x, ',')[i]);
        lemma_key_colon(p);
        match key_colon(p) {
            Some(k) => {
                let c = p.subrange(k + 1, p.len() as int);
                let w = lemma_inline(s, open, c);
                let v = inline_value(s, open, c).0;
                let name = unquoted(p.subrange(0, k));
                let raw = bare_key(p.subrange(0, k));
                lemma_unquoted(p.subrange(0, k));
                lemma_put_all_push(q, name, v);
                lemma_entries_mirror(q, b, (name, v), (raw, w), b.len() as int);
                lemma_one_entry(b, raw, w);
                lemma_inline_entries(s, open, x, i + 1, q.push((name, v)), b.push((raw, w)))
            },
            None => lemma_inline_entries(s, open, x, i + 1, q, b),
        }
    } else {
        (q, b)
    }
}

/// The nodes of entries with one more behind them.
pub proof fn lemma_one_entry(b: Entries, k: Text, w: Val)
    ensures
        flat_entries(b.push((k, w)), 0) == flat_entries(b, 0) + (seq![Mark::Key(k)] + flat(w)),
{
    let one: Entries = seq![(k, w)];
    reveal_with_fuel(flat_entries, 2);
    assert(flat_entries(one, 1) =~= seq![]);
    assert(flat_entries(one, 0) =~= seq![Mark::Key(k)] + flat(w));
    lemma_entries_concat(b, one, 0);
    assert(b + one =~= b.push((k, w)));
}

/// The nodes that a tape has for a value on one line are those of the value that a
/// decoder reads there, but that texts keep their escapes, and an object has every
/// entry that is written. Where there are no escapes, and no key twice, they are
/// the nodes of the value.
pub proof fn a_tape_reads_a_line_like_a_decoder(s: Stores, open: Seq<Text>, input: Text)
    ensures
        exists|w: Val|
            {
                &&& tape_inline(s, open, input).0 == #[trigger] flat(w)
                &&& mirrors(inline_value(s, open, input).0, w)
                &&& no_escapes(w) && well_keyed(w) ==> tape_inline(s, open, input).0 == flat(
                    inline_value(s, open, input).0,
                )
            },
        tape_inline(s, open, input).1 == inline_value(s, open, input).1,
{
    let w = lemma_inline(s, open, input);
    if no_escapes(w) && well_keyed(w) {
        without_escapes_a_tape_is_exact(inline_value(s, open, input).0, w);
    }
    assert(tape_inline(s, open, input).0 == flat(w));
}

} // verus!
