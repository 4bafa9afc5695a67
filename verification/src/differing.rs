//! Differences key by key, and hashes that tell one change.

use vstd::prelude::*;
use crate::number::{integer_text, is_digit, lemma_digits_text};
use crate::order::{before, lemma_before_total, sorted, sorted_is_ascending, sorted_keeps_texts};
use crate::text::Text;
use crate::treehash::{
    below, differences, digest, either_keys, entry_prints, fingerprint, item_prints,
    key_differences, key_sorted, key_sorted_entries, key_sorted_items, same, Change, Difference,
};
use crate::value::{
    distinct, entry, has_key, key_index, keys, lemma_entry_found, lemma_key_index, put, Entries,
    Val,
};

verus! {

// ---------------------------------------------------------------------------
// Differences

/// One step of a row of rows.
proof fn lemma_flat_step<A, B>(s: Seq<A>, i: int, f: spec_fn(A) -> Seq<B>)
    requires
        0 <= i < s.len(),
    ensures
        s.subrange(i, s.len() as int).flat_map(f) == f(s[i]) + s.subrange(
            i + 1,
            s.len() as int,
        ).flat_map(f),
{
    let part = s.subrange(i, s.len() as int);
    let rest = s.subrange(i + 1, s.len() as int);
    assert(part.map_values(f).drop_first() =~= rest.map_values(f));
    assert(part.map_values(f).first() == f(s[i]));
}

/// The path of what stands under a key.
pub open spec fn path_to(path: Text, k: Text) -> Text {
    if path.len() == 0 {
        k
    } else {
        path + seq!['.'] + k
    }
}

/// What is told of an entry of the first of two objects.
pub open spec fn told_first(y: Entries, path: Text, e: (Text, Val)) -> Seq<Difference> {
    match entry(y, e.0) {
        Some(w) => differences(e.1, w, path_to(path, e.0)),
        None => seq![Difference { path: path_to(path, e.0), change: Change::Removed(e.1) }],
    }
}

/// What is told of an entry of the second of two objects, beyond what is told of
/// those of the first.
pub open spec fn told_second(x: Entries, path: Text, e: (Text, Val)) -> Seq<Difference> {
    match entry(x, e.0) {
        Some(_) => seq![],
        None => seq![Difference { path: path_to(path, e.0), change: Change::Added(e.1) }],
    }
}

/// The keys of `y` from the `i`-th on that `x` does not have.
pub open spec fn new_keys(x: Entries, y: Entries, i: int) -> Seq<Text>
    decreases y.len() - i,
{
    if 0 <= i < y.len() {
        (if has_key(x, y[i].0) {
            seq![]
        } else {
            seq![y[i].0]
        }) + new_keys(x, y, i + 1)
    } else {
        seq![]
    }
}

/// The keys of two objects.
proof fn lemma_either(x: Entries, y: Entries, i: int, done: Seq<Text>)
    requires
        0 <= i <= y.len(),
    ensures
        either_keys(x, y, i, done) == done + new_keys(x, y, i),
    decreases y.len() - i,
{
    if i < y.len() {
        if has_key(x, y[i].0) {
            lemma_either(x, y, i + 1, done);
            assert(done + (Seq::<Text>::empty() + new_keys(x, y, i + 1)) =~= done + new_keys(
                x,
                y,
                i + 1,
            ));
        } else {
            lemma_either(x, y, i + 1, done.push(y[i].0));
            assert(done.push(y[i].0) + new_keys(x, y, i + 1) =~= done + (seq![y[i].0] + new_keys(
                x,
                y,
                i + 1,
            )));
        }
    } else {
        assert(done + Seq::<Text>::empty() =~= done);
    }
}

/// The differences under keys that stand behind others.
proof fn lemma_behind_keys(
    x: Entries,
    y: Entries,
    a: Seq<Text>,
    b: Seq<Text>,
    j: int,
    path: Text,
)
    requires
        0 <= j <= b.len(),
    ensures
        key_differences(x, y, a + b, a.len() + j, path) == key_differences(x, y, b, j, path),
    decreases b.len() - j,
{
    if j < b.len() {
        assert((a + b)[a.len() + j] == b[j]);
        lemma_behind_keys(x, y, a, b, j + 1, path);
    }
}

/// A dot.
proof fn lemma_dot(path: Text, k: Text)
    ensures
        below(path, k) == path_to(path, k),
{
    reveal_strlit(".");
    assert("."@ =~= seq!['.']);
}

/// The differences under the keys that only the second object has.
proof fn lemma_told_second(x: Entries, y: Entries, i: int, path: Text)
    requires
        distinct(y),
        0 <= i <= y.len(),
    ensures
        key_differences(x, y, new_keys(x, y, i), 0, path) == y.subrange(
            i,
            y.len() as int,
        ).flat_map(|e: (Text, Val)| told_second(x, path, e)),
    decreases y.len() - i,
{
    let f = |e: (Text, Val)| told_second(x, path, e);
    if i < y.len() {
        let k = y[i].0;
        let rest = new_keys(x, y, i + 1);
        lemma_told_second(x, y, i + 1, path);
        lemma_flat_step(y, i, f);
        lemma_key_index(x, k);
        if has_key(x, k) {
            assert(Seq::<Text>::empty() + rest =~= rest);
            assert(f(y[i]) + y.subrange(i + 1, y.len() as int).flat_map(f) =~= y.subrange(
                i + 1,
                y.len() as int,
            ).flat_map(f));
        } else {
            let one = seq![k];
            lemma_behind_keys(x, y, one, rest, 0, path);
            lemma_entry_found(y, i);
            lemma_dot(path, k);
            assert((one + rest)[0] == k);
            assert(key_differences(x, y, one + rest, 0, path) == seq![
                Difference { path: below(path, k), change: Change::Added(y[i].1) },
            ] + key_differences(x, y, one + rest, 1, path));
        }
    } else {
        assert(y.subrange(i, y.len() as int).map_values(f) =~= seq![]);
    }
}

/// The differences under the keys of the first object, and those behind them.
proof fn lemma_told_first(x: Entries, y: Entries, more: Seq<Text>, i: int, path: Text)
    requires
        distinct(x),
        0 <= i <= x.len(),
    ensures
        key_differences(x, y, keys(x) + more, i, path) == x.subrange(i, x.len() as int).flat_map(
            |e: (Text, Val)| told_first(y, path, e),
        ) + key_differences(x, y, more, 0, path),
    decreases x.len() - i,
{
    let f = |e: (Text, Val)| told_first(y, path, e);
    let ks = keys(x) + more;
    let last = key_differences(x, y, more, 0, path);
    if i < x.len() {
        let k = x[i].0;
        assert(ks[i] == k);
        lemma_entry_found(x, i);
        lemma_dot(path, k);
        lemma_told_first(x, y, more, i + 1, path);
        lemma_flat_step(x, i, f);
        let rest = x.subrange(i + 1, x.len() as int).flat_map(f);
        assert(f(x[i]) + (rest + last) =~= f(x[i]) + rest + last);
    } else {
        lemma_behind_keys(x, y, keys(x), more, 0, path);
        assert(x.subrange(i, x.len() as int).map_values(f) =~= seq![]);
        assert(Seq::<Difference>::empty() + last =~= last);
    }
}

/// The differences between two objects that are not the same go key by key: for
/// each entry of the first, in its order, what differs under its key, or that it
/// was removed; and behind these, for each entry of the second that the first does
/// not have, that it was added. The path of each is that of the objects with the
/// key behind a dot.
pub proof fn differences_go_key_by_key(x: Entries, y: Entries, path: Text)
    requires
        distinct(x),
        distinct(y),
        !same(Val::Object(x), Val::Object(y)),
    ensures
        differences(Val::Object(x), Val::Object(y), path) == x.flat_map(
            |e: (Text, Val)| told_first(y, path, e),
        ) + y.flat_map(|e: (Text, Val)| told_second(x, path, e)),
{
    lemma_either(x, y, 0, keys(x));
    lemma_told_first(x, y, new_keys(x, y, 0), 0, path);
    lemma_told_second(x, y, 0, path);
    assert(x.subrange(0, x.len() as int) =~= x);
    assert(y.subrange(0, y.len() as int) =~= y);
}

// ---------------------------------------------------------------------------
// Hashes

/// Whether two values are known by the digests of two different texts.
pub open spec fn told_apart(a: Val, b: Val) -> bool {
    exists|t: Text, u: Text|
        t != u && #[trigger] digest(t) == fingerprint(a) && #[trigger] digest(u) == fingerprint(b)
}

/// Texts that differ in the middle.
proof fn lemma_middle(p: Text, f: Text, g: Text, s: Text)
    requires
        f != g,
    ensures
        p + f + s != p + g + s,
{
    if p + f + s == p + g + s {
        let t = p + f + s;
        assert(t.len() == p.len() + f.len() + s.len());
        assert((p + g + s).len() == p.len() + g.len() + s.len());
        assert(t.subrange(p.len() as int, (p.len() + f.len()) as int) =~= f);
        assert((p + g + s).subrange(p.len() as int, (p.len() + g.len()) as int) =~= g);
    }
}

/// The fingerprints of items, one of which was replaced.
proof fn lemma_item_replaced(a: Seq<Val>, i: int, v: Val, j: int) -> (r: (Text, Text))
    requires
        0 <= j <= i < a.len(),
    ensures
        item_prints(a, j) == r.0 + fingerprint(a[i]) + r.1,
        item_prints(a.update(i, v), j) == r.0 + fingerprint(v) + r.1,
    decreases i - j,
{
    let b = a.update(i, v);
    if j < i {
        let (p, s) = lemma_item_replaced(a, i, v, j + 1);
        assert(b[j] == a[j]);
        let head = seq!['|'] + fingerprint(a[j]);
        assert(head + (p + fingerprint(a[i]) + s) =~= (head + p) + fingerprint(a[i]) + s);
        assert(head + (p + fingerprint(v) + s) =~= (head + p) + fingerprint(v) + s);
        (head + p, s)
    } else {
        lemma_items_behind(a, i, v, i + 1);
        (seq!['|'], item_prints(a, i + 1))
    }
}

/// The fingerprints of the items behind one that was replaced.
proof fn lemma_items_behind(a: Seq<Val>, i: int, v: Val, j: int)
    requires
        0 <= i < j <= a.len(),
    ensures
        item_prints(a.update(i, v), j) == item_prints(a, j),
    decreases a.len() - j,
{
    if j < a.len() {
        assert(a.update(i, v)[j] == a[j]);
        lemma_items_behind(a, i, v, j + 1);
    }
}

/// An array with one item replaced by one with another fingerprint is known by
/// the digest of another text.
pub proof fn one_item_tells(a: Seq<Val>, i: int, v: Val)
    requires
        0 <= i < a.len(),
        fingerprint(v) != fingerprint(a[i]),
    ensures
        told_apart(Val::Array(a), Val::Array(a.update(i, v))),
{
    let b = a.update(i, v);
    let head = "A:"@ + integer_text(a.len() as int);
    let (p, s) = lemma_item_replaced(a, i, v, 0);
    let t = head + item_prints(a, 0);
    let u = head + item_prints(b, 0);
    assert(t =~= (head + p) + fingerprint(a[i]) + s);
    assert(u =~= (head + p) + fingerprint(v) + s);
    lemma_middle(head + p, fingerprint(a[i]), fingerprint(v), s);
    assert(digest(t) == fingerprint(Val::Array(a)));
    assert(digest(u) == fingerprint(Val::Array(b)));
}

/// The fingerprints of entries under keys, one of which got another value.
proof fn lemma_entry_replaced(
    o: Entries,
    i: int,
    v: Val,
    ks: Seq<Text>,
    m: int,
    j: int,
) -> (r: (Text, Text))
    requires
        distinct(o),
        0 <= i < o.len(),
        0 <= j <= m < ks.len(),
        ks[m] == o[i].0,
        forall|h: int| 0 <= h < ks.len() && h != m ==> #[trigger] ks[h] != o[i].0,
    ensures
        entry_prints(o, ks, j) == r.0 + fingerprint(o[i].1) + r.1,
        entry_prints(o.update(i, (o[i].0, v)), ks, j) == r.0 + fingerprint(v) + r.1,
    decreases m - j,
{
    let q = o.update(i, (o[i].0, v));
    lemma_entry_there(o, i, v, ks[j]);
    if j < m {
        let (p, s) = lemma_entry_replaced(o, i, v, ks, m, j + 1);
        let head = seq!['|'] + ks[j] + seq![':'] + (if has_key(o, ks[j]) {
            fingerprint(o[key_index(o, ks[j])].1)
        } else {
            seq![]
        });
        assert(head + (p + fingerprint(o[i].1) + s) =~= (head + p) + fingerprint(o[i].1) + s);
        assert(head + (p + fingerprint(v) + s) =~= (head + p) + fingerprint(v) + s);
        (head + p, s)
    } else {
        lemma_entries_behind(o, i, v, ks, m, m + 1);
        (seq!['|'] + ks[j] + seq![':'], entry_prints(o, ks, m + 1))
    }
}

/// What stands under a key in an object one entry of which got another value.
proof fn lemma_entry_there(o: Entries, i: int, v: Val, k: Text)
    requires
        distinct(o),
        0 <= i < o.len(),
    ensures
        ({
            let q = o.update(i, (o[i].0, v));
            &&& has_key(q, k) == has_key(o, k)
            &&& key_index(q, k) == key_index(o, k)
            &&& k != o[i].0 && has_key(o, k) ==> q[key_index(q, k)] == o[key_index(o, k)]
            &&& k == o[i].0 ==> has_key(o, k) && key_index(o, k) == i && q[i].1 == v
        }),
{
    let q = o.update(i, (o[i].0, v));
    lemma_key_index(o, k);
    lemma_key_index(q, k);
    let a = key_index(o, k);
    let b = key_index(q, k);
    if a < o.len() {
        assert(q[a].0 == k);
    }
    if b < q.len() {
        assert(o[b].0 == k);
    }
    if a < b {
        assert(q[a].0 != k);
    }
    if b < a {
        assert(o[b].0 != k);
    }
    if k == o[i].0 {
        lemma_entry_found(o, i);
    }
}

/// The fingerprints of the entries behind one that got another value.
proof fn lemma_entries_behind(o: Entries, i: int, v: Val, ks: Seq<Text>, m: int, j: int)
    requires
        distinct(o),
        0 <= i < o.len(),
        0 <= m < j <= ks.len(),
        forall|h: int| 0 <= h < ks.len() && h != m ==> #[trigger] ks[h] != o[i].0,
    ensures
        entry_prints(o.update(i, (o[i].0, v)), ks, j) == entry_prints(o, ks, j),
    decreases ks.len() - j,
{
    if j < ks.len() {
        lemma_entry_there(o, i, v, ks[j]);
        lemma_entries_behind(o, i, v, ks, m, j + 1);
    }
}

/// A key of an object stands once among its keys in order.
proof fn lemma_sorted_once(o: Entries, i: int) -> (m: int)
    requires
        distinct(o),
        0 <= i < o.len(),
    ensures
        0 <= m < sorted(keys(o)).len(),
        sorted(keys(o))[m] == o[i].0,
        forall|h: int|
            0 <= h < sorted(keys(o)).len() && h != m ==> #[trigger] sorted(keys(o))[h] != o[i].0,
{
    broadcast use vstd::seq_lib::group_to_multiset_ensures;

    let s = keys(o);
    let ks = sorted(s);
    assert(s.no_duplicates());
    sorted_keeps_texts(s);
    sorted_is_ascending(s);
    assert(s[i] == o[i].0);
    assert(s.contains(o[i].0));
    assert(s.to_multiset().count(o[i].0) > 0);
    assert(ks.to_multiset().count(o[i].0) > 0);
    assert(ks.contains(o[i].0));
    let m = ks.index_of(o[i].0);
    assert forall|h: int| 0 <= h < ks.len() && h != m implies #[trigger] ks[h] != o[i].0 by {
        lemma_before_total(o[i].0, o[i].0);
        if h < m {
            assert(before(ks[h], ks[m]));
        } else {
            assert(before(ks[m], ks[h]));
        }
    }
    m
}

/// An object with another value under one key, one with another fingerprint, is
/// known by the digest of another text.
pub proof fn one_entry_tells(o: Entries, i: int, v: Val)
    requires
        distinct(o),
        0 <= i < o.len(),
        fingerprint(v) != fingerprint(o[i].1),
    ensures
        told_apart(Val::Object(o), Val::Object(o.update(i, (o[i].0, v)))),
{
    let q = o.update(i, (o[i].0, v));
    let ks = sorted(keys(o));
    assert(keys(q) =~= keys(o));
    let m = lemma_sorted_once(o, i);
    let head = "O:"@ + integer_text(o.len() as int);
    let (p, s) = lemma_entry_replaced(o, i, v, ks, m, 0);
    let t = head + entry_prints(o, ks, 0);
    let u = head + entry_prints(q, ks, 0);
    assert(t =~= (head + p) + fingerprint(o[i].1) + s);
    assert(u =~= (head + p) + fingerprint(v) + s);
    lemma_middle(head + p, fingerprint(o[i].1), fingerprint(v), s);
    assert(digest(t) == fingerprint(Val::Object(o)));
    assert(digest(u) == fingerprint(Val::Object(q)));
}
/// A number and what follows it, which begins with no digit, tell the number.
proof fn lemma_number_told(n: nat, m: nat, r: Text, s: Text)
    requires
        r.len() == 0 || r[0] == '|',
        s.len() == 0 || s[0] == '|',
        integer_text(n as int) + r == integer_text(m as int) + s,
    ensures
        n == m,
{
    let a = integer_text(n as int);
    let b = integer_text(m as int);
    let t = a + r;
    let u = b + s;
    lemma_digits_text(n);
    lemma_digits_text(m);
    if a.len() < b.len() {
        assert(u[a.len() as int] == b[a.len() as int]);
        assert(t[a.len() as int] == r[0]);
        assert(is_digit(b[a.len() as int]));
    } else if b.len() < a.len() {
        assert(t[b.len() as int] == a[b.len() as int]);
        assert(u[b.len() as int] == s[0]);
        assert(is_digit(a[b.len() as int]));
    } else {
        assert(t.subrange(0, a.len() as int) =~= a);
        assert(u.subrange(0, b.len() as int) =~= b);
    }
}

/// Arrays with different numbers of items, and objects with different numbers of
/// entries, are known by the digests of different texts; so are an array and an
/// object.
pub proof fn sizes_and_kinds_tell(a: Seq<Val>, b: Seq<Val>, x: Entries, y: Entries)
    ensures
        a.len() != b.len() ==> told_apart(Val::Array(a), Val::Array(b)),
        x.len() != y.len() ==> told_apart(Val::Object(x), Val::Object(y)),
        told_apart(Val::Array(a), Val::Object(x)),
{
    reveal_strlit("A:");
    reveal_strlit("O:");
    let ta = "A:"@ + integer_text(a.len() as int) + item_prints(a, 0);
    let tb = "A:"@ + integer_text(b.len() as int) + item_prints(b, 0);
    let tx = "O:"@ + integer_text(x.len() as int) + entry_prints(x, sorted(keys(x)), 0);
    let ty = "O:"@ + integer_text(y.len() as int) + entry_prints(y, sorted(keys(y)), 0);
    assert(digest(ta) == fingerprint(Val::Array(a)));
    assert(digest(tb) == fingerprint(Val::Array(b)));
    assert(digest(tx) == fingerprint(Val::Object(x)));
    assert(digest(ty) == fingerprint(Val::Object(y)));
    assert(ta[0] == 'A' && tx[0] == 'O');
    if a.len() != b.len() && ta == tb {
        let p = integer_text(a.len() as int) + item_prints(a, 0);
        let q = integer_text(b.len() as int) + item_prints(b, 0);
        assert(ta.subrange(2, ta.len() as int) =~= p);
        assert(tb.subrange(2, tb.len() as int) =~= q);
        lemma_number_told(a.len(), b.len(), item_prints(a, 0), item_prints(b, 0));
    }
    if x.len() != y.len() && tx == ty {
        let kx = entry_prints(x, sorted(keys(x)), 0);
        let ky = entry_prints(y, sorted(keys(y)), 0);
        let p = integer_text(x.len() as int) + kx;
        let q = integer_text(y.len() as int) + ky;
        assert(tx.subrange(2, tx.len() as int) =~= p);
        assert(ty.subrange(2, ty.len() as int) =~= q);
        lemma_number_told(x.len(), y.len(), kx, ky);
    }
}
// ---------------------------------------------------------------------------
// Keys in order

/// Entries with their keys in order, from some key on.
proof fn lemma_sorted_from(o: Entries, ks: Seq<Text>, i: int, done: Entries)
    requires
        0 <= i <= ks.len(),
        ks.no_duplicates(),
        forall|j: int| 0 <= j < ks.len() ==> has_key(o, #[trigger] ks[j]),
        done == Seq::new(i as nat, |j: int| (ks[j], key_sorted(entry(o, ks[j])->0))),
    ensures
        key_sorted_entries(o, ks, i, done) == Seq::new(
            ks.len(),
            |j: int| (ks[j], key_sorted(entry(o, ks[j])->0)),
        ),
    decreases ks.len() - i,
{
    if i < ks.len() {
        assert(has_key(o, ks[i]));
        lemma_key_index(done, ks[i]);
        if has_key(done, ks[i]) {
            let j = key_index(done, ks[i]);
            assert(ks[j] == ks[i]);
        }
        let next = put(done, ks[i], key_sorted(o[key_index(o, ks[i])].1));
        assert(next =~= Seq::new(
            (i + 1) as nat,
            |j: int| (ks[j], key_sorted(entry(o, ks[j])->0)),
        ));
        lemma_sorted_from(o, ks, i + 1, next);
    } else {
        assert(done =~= Seq::new(ks.len(), |j: int| (ks[j], key_sorted(entry(o, ks[j])->0))));
    }
}

/// Items with their keys in order, from some item on.
proof fn lemma_sorted_items_from(a: Seq<Val>, i: int, done: Seq<Val>)
    requires
        0 <= i <= a.len(),
        done == Seq::new(i as nat, |j: int| key_sorted(a[j])),
    ensures
        key_sorted_items(a, i, done) == Seq::new(a.len(), |j: int| key_sorted(a[j])),
    decreases a.len() - i,
{
    if i < a.len() {
        let next = done.push(key_sorted(a[i]));
        assert(next =~= Seq::new((i + 1) as nat, |j: int| key_sorted(a[j])));
        lemma_sorted_items_from(a, i + 1, next);
    } else {
        assert(done =~= Seq::new(a.len(), |j: int| key_sorted(a[j])));
    }
}

/// A value that is put in order has the entries of each object in the order of
/// their keys, each with its own value put in order; its arrays keep their order.
#[verifier::rlimit(40)]
pub proof fn putting_in_order_sorts_keys(o: Entries, a: Seq<Val>)
    requires
        distinct(o),
    ensures
        key_sorted(Val::Object(o)) == Val::Object(
            Seq::new(
                o.len(),
                |j: int|
                    (
                        sorted(keys(o))[j],
                        key_sorted(entry(o, sorted(keys(o))[j])->0),
                    ),
            ),
        ),
        key_sorted(Val::Array(a)) == Val::Array(Seq::new(a.len(), |j: int| key_sorted(a[j]))),
{
    broadcast use vstd::seq_lib::group_to_multiset_ensures;

    let s = keys(o);
    let ks = sorted(s);
    assert(s.no_duplicates());
    sorted_keeps_texts(s);
    sorted_is_ascending(s);
    assert forall|i: int, j: int| 0 <= i < j < ks.len() implies ks[i] != ks[j] by {
        assert(before(ks[i], ks[j]));
        lemma_before_total(ks[i], ks[i]);
    }
    assert(ks.no_duplicates());
    assert forall|j: int| 0 <= j < ks.len() implies has_key(o, #[trigger] ks[j]) by {
        assert(ks.contains(ks[j]));
        assert(ks.to_multiset().count(ks[j]) > 0);
        assert(s.to_multiset().count(ks[j]) > 0);
        assert(s.contains(ks[j]));
        let i = s.index_of(ks[j]);
        assert(o[i].0 == ks[j]);
        lemma_entry_found(o, i);
    }
    let none = Seq::<(Text, Val)>::empty();
    assert(none =~= Seq::new(0, |j: int| (ks[j], key_sorted(entry(o, ks[j])->0))));
    lemma_sorted_from(o, ks, 0, none);
    let empty = Seq::<Val>::empty();
    assert(empty =~= Seq::new(0, |j: int| key_sorted(a[j])));
    lemma_sorted_items_from(a, 0, empty);
}

/// An object with one entry is known by the digest of another text where its key
/// is another.
pub proof fn a_key_tells(k: Text, j: Text, v: Val)
    requires
        k != j,
    ensures
        told_apart(Val::Object(seq![(k, v)]), Val::Object(seq![(j, v)])),
{
    let (p, s) = lemma_one_key(k, v);
    let (q, r) = lemma_one_key(j, v);
    let t = p + k + s;
    let u = p + j + s;
    lemma_middle(p, k, j, s);
    assert(digest(t) == fingerprint(Val::Object(seq![(k, v)])));
    assert(digest(u) == fingerprint(Val::Object(seq![(j, v)])));
}

/// The text of an object with one entry.
proof fn lemma_one_key(k: Text, v: Val) -> (r: (Text, Text))
    ensures
        r.0 == "O:"@ + integer_text(1) + seq!['|'],
        r.1 == seq![':'] + fingerprint(v),
        fingerprint(Val::Object(seq![(k, v)])) == digest(r.0 + k + r.1),
{
    reveal_with_fuel(entry_prints, 2);
    reveal_with_fuel(sorted, 2);
    let o = seq![(k, v)];
    let ks = sorted(keys(o));
    assert(keys(o) =~= seq![k]);
    assert(seq![k].drop_last() =~= seq![]);
    assert(ks =~= seq![k]);
    lemma_entry_found(o, 0);
    assert(distinct(o));
    let head = "O:"@ + integer_text(1);
    let one = seq!['|'] + k + seq![':'] + fingerprint(v);
    assert(entry_prints(o, ks, 0) =~= one);
    let r = (head + seq!['|'], seq![':'] + fingerprint(v));
    assert(head + one =~= r.0 + k + r.1);
    r
}

} // verus!
