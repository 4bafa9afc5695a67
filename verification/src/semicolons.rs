//! Documents on one line: where they are cut, and how deep what they say stands.

use vstd::prelude::*;
use crate::encoder::{is_plain_key, key_text, unsafe_in_key};
use crate::lines::{
    definition_kind, has_inline_value, is_silent, levels_opened, read_segments, segments, semi_at,
    semis_end, Known, Line, Segment,
};
use crate::marks::{is_bare, lemma_place_start, lemma_place_step, place_at};
use crate::readback::{key_reads, lemma_key_line, lemma_trim_of_trim};
use crate::scan::outside;
use crate::text::{ends_with, is_space, starts_with, trim, Text};

verus! {

/// Whether the position `k` of `s` holds a semicolon outside of quotes.
pub open spec fn divides(s: Text, k: int) -> bool {
    0 <= k < s.len() && s[k] == ';' && is_bare(s, k)
}

/// A row of `n` semicolons.
pub open spec fn row_of_semicolons(n: nat) -> Text {
    Seq::new(n, |i: int| ';')
}

/// The first semicolon from some position on.
proof fn lemma_semi_from(s: Text, i: int, e: int)
    requires
        0 <= i <= e <= s.len(),
        e < s.len() ==> divides(s, e),
        forall|k: int| 0 <= k < e ==> !#[trigger] divides(s, k),
    ensures
        semi_at(s, i, place_at(s, i)) == e,
    decreases e - i,
{
    if i < s.len() {
        lemma_place_step(s, i);
        if i < e {
            assert(!divides(s, i));
            lemma_semi_from(s, i + 1, e);
        } else {
            assert(divides(s, e));
        }
    }
}

/// The end of semicolons.
proof fn lemma_semis_to(s: Text, i: int, e: int)
    requires
        0 <= i <= e <= s.len(),
        forall|k: int| i <= k < e ==> #[trigger] s[k] == ';',
        e < s.len() ==> s[e] != ';',
    ensures
        semis_end(s, i) == e,
    decreases e - i,
{
    if i < e {
        lemma_semis_to(s, i + 1, e);
    }
}

/// A document on one line is cut at each row of semicolons outside of quotes: what
/// stands before the first one is the first segment, with the number of the
/// semicolons, and the others are those of what stands behind it.
pub proof fn segments_stand_between_semicolons(a: Text, n: nat, b: Text)
    requires
        n > 0,
        is_bare(a, a.len() as int),
        forall|k: int| 0 <= k < a.len() ==> !#[trigger] divides(a, k),
        b.len() == 0 || b[0] != ';',
    ensures
        segments(a + row_of_semicolons(n) + b) == seq![Segment { text: trim(a), semis: n }]
            + segments(b),
{
    let s = a + row_of_semicolons(n) + b;
    let e = a.len() as int;
    let z = e + n;
    assert forall|k: int| 0 <= k <= e implies #[trigger] s.subrange(0, k) == a.subrange(0, k) by {
        assert(s.subrange(0, k) =~= a.subrange(0, k));
    }
    assert(s[e] == ';');
    assert(divides(s, e)) by {
        assert(s.subrange(0, e) == a.subrange(0, e));
    }
    assert forall|k: int| 0 <= k < e implies !#[trigger] divides(s, k) by {
        assert(s.subrange(0, k) == a.subrange(0, k));
        assert(!divides(a, k));
    }
    lemma_place_start(s);
    lemma_semi_from(s, 0, e);
    assert forall|k: int| e <= k < z implies #[trigger] s[k] == ';' by {}
    if b.len() > 0 {
        assert(s[z] == b[0]);
    }
    lemma_semis_to(s, e, z);
    assert(s.subrange(0, e) =~= a);
    assert(s.subrange(z, s.len() as int) =~= b);
}

/// A text without a semicolon outside of quotes is one segment.
pub proof fn without_semicolons_there_is_one_segment(s: Text)
    requires
        forall|k: int| 0 <= k < s.len() ==> !#[trigger] divides(s, k),
    ensures
        segments(s) == seq![Segment { text: trim(s), semis: 0 }],
{
    lemma_place_start(s);
    lemma_semi_from(s, 0, s.len() as int);
}

/// How deep the next segment stands: one semicolon stays, and each one more goes
/// up a level, but not above the outermost one.
pub open spec fn up(depth: nat, semis: nat) -> nat {
    if semis <= 1 {
        depth
    } else if depth + 1 <= semis {
        0
    } else {
        (depth + 1 - semis) as nat
    }
}

/// A segment with a key and nothing behind it takes the next one a level deeper; a
/// segment with a value does not. The semicolons behind it go up, one of them
/// aside.
#[verifier::rlimit(40)]
pub proof fn a_key_opens_a_level(
    known: Known,
    g: Seq<Segment>,
    i: int,
    depth: nat,
    done: Seq<Line>,
    k: Text,
    v: Text,
)
    requires
        0 <= i < g.len(),
        key_reads(k),
        v.len() > 0,
        !is_space(v[0]),
        !is_space(v.last()),
        !is_silent(g[i].text),
        definition_kind(g[i].text) is None,
    ensures
        g[i].text == key_text(k) + seq![':'] ==> read_segments(known, g, i, depth, done)
            == read_segments(
            known,
            g,
            i + 1,
            up(depth + 1, g[i].semis),
            done.push(Line { depth: depth as int, text: g[i].text }),
        ),
        g[i].text == key_text(k) + seq![':', ' '] + v ==> read_segments(known, g, i, depth, done)
            == read_segments(
            known,
            g,
            i + 1,
            up(depth, g[i].semis),
            done.push(Line { depth: depth as int, text: g[i].text }),
        ),
{
    reveal_strlit(":");
    reveal_strlit("- ");
    let t = g[i].text;
    let q = key_text(k);
    let n = q.len() as int;
    lemma_no_dash(k);
    let none = Seq::<char>::empty();
    if t == q + seq![':'] {
        assert(t =~= q + seq![':'] + none);
        lemma_key_line(k, none);
        assert(t.subrange(n + 1, t.len() as int) =~= none);
        assert(trim(none) =~= none);
        assert(t.subrange(t.len() - 1, t.len() as int) =~= ":"@);
        lemma_no_item(q, seq![':']);
        assert(levels_opened(t) == 1);
    }
    if t == q + seq![':', ' '] + v {
        let rest = seq![' '] + v;
        assert(t =~= q + seq![':'] + rest);
        lemma_key_line(k, rest);
        assert(t.subrange(n + 1, t.len() as int) =~= rest);
        lemma_trim_of_trim(v);
        assert(has_inline_value(t));
        lemma_no_item(q, seq![':', ' '] + v);
        assert(q + (seq![':', ' '] + v) =~= t);
        assert(levels_opened(t) == 0);
    }
}

/// A key as it is written is not empty, and holds no space where a dash begins it.
pub proof fn lemma_no_dash(k: Text)
    ensures
        key_text(k).len() > 0,
        key_text(k)[0] == '-' ==> forall|j: int|
            0 <= j < key_text(k).len() ==> #[trigger] key_text(k)[j] != ' ',
{
    let q = key_text(k);
    if is_plain_key(k) {
        assert forall|j: int| 0 <= j < q.len() implies #[trigger] q[j] != ' ' by {
            assert(!unsafe_in_key(k[j]));
        }
    } else {
        assert(q[0] == '"');
    }
}

/// What begins with a key is no list item.
pub proof fn lemma_no_item(q: Text, rest: Text)
    requires
        q.len() > 0,
        q[0] == '-' ==> forall|j: int| 0 <= j < q.len() ==> #[trigger] q[j] != ' ',
        rest.len() > 0,
        rest[0] == ':',
    ensures
        !starts_with(q + rest, "- "@),
{
    reveal_strlit("- ");
    let t = q + rest;
    if starts_with(t, "- "@) {
        let p = t.subrange(0, 2);
        assert(p[0] == t[0] && p[1] == t[1]);
        assert(t[0] == q[0]);
        if q.len() > 1 {
            assert(t[1] == q[1]);
        } else {
            assert(t[1] == rest[0]);
        }
    }
}

/// A segment that is a list item takes the next one a level deeper.
#[verifier::rlimit(40)]
pub proof fn an_item_opens_a_level(
    known: Known,
    g: Seq<Segment>,
    i: int,
    depth: nat,
    done: Seq<Line>,
    v: Text,
)
    requires
        0 <= i < g.len(),
        v.len() > 0,
        !v.contains(':'),
        g[i].text == seq!['-', ' '] + v,
    ensures
        read_segments(known, g, i, depth, done) == read_segments(
            known,
            g,
            i + 1,
            up(depth + 1, g[i].semis),
            done.push(Line { depth: depth as int, text: g[i].text }),
        ),
{
    reveal_strlit(":");
    reveal_strlit("- ");
    reveal_strlit("s:");
    reveal_strlit("r:");
    reveal_strlit("sec:");
    reveal_strlit("@@");
    reveal_strlit("@use ");
    let t = g[i].text;
    assert(t[0] == '-');
    assert(t.subrange(0, 2) =~= "- "@);
    if starts_with(t, "s:"@) {
        assert(t.subrange(0, 2)[0] == t[0]);
    }
    if starts_with(t, "r:"@) {
        assert(t.subrange(0, 2)[0] == t[0]);
    }
    if starts_with(t, "sec:"@) {
        assert(t.subrange(0, 4)[0] == t[0]);
    }
    if starts_with(t, "@@"@) {
        assert(t.subrange(0, 2)[0] == t[0]);
    }
    if starts_with(t, "@use "@) {
        assert(t.subrange(0, 5)[0] == t[0]);
    }
    assert(!ends_with(t, ":"@)) by {
        let last = t.len() - 1;
        assert(t[last] == v[v.len() - 1]);
        assert(v.contains(v[v.len() - 1]));
        if ends_with(t, ":"@) {
            assert(t.subrange(last, t.len() as int)[0] == t[last]);
        }
    }
    assert(levels_opened(t) == 1);
}

} // verus!
