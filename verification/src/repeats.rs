//! Parts that occur more than once: they are found, defined and referred to.

use vstd::prelude::*;
use crate::defining::{lemma_repeated, style_for};
use crate::encoder::{
    key_text, matching_schema, schema_name, stores_for, with_repeated, written_entries,
    written_entry, written_item, written_value, Manner, Style,
};
use crate::lines::Line;
use crate::overrides::at_path;
use crate::schema_registry::{defined, DefType, Stores};
use crate::sharing::{entry_parts, item_parts, own_parts, parts};
use crate::text::Text;
use crate::treehash::{
    below, collected, collected_entries, collected_items, collected_list, counted, item_path,
    list_path, registered, root_digest, visited, Tallies, Tally,
};
use crate::value::{
    distinct, entry, has_key, key_index, lemma_entry_found, lemma_entry_keyed, lemma_entry_smaller,
    lemma_item_smaller, lemma_key_index, lemma_put, val_eq, well_keyed, Entries, Val,
};

verus! {

// ---------------------------------------------------------------------------
// Places

/// A step into a value: to what stands under a key of an object, or to an item of
/// an array.
pub enum Step {
    Field(Text),
    Item(int),
}

/// What the steps from the `i`-th on lead to.
pub open spec fn at_steps(v: Val, p: Seq<Step>, i: int) -> Option<Val>
    decreases p.len() - i,
{
    if 0 <= i < p.len() {
        match (v, p[i]) {
            (Val::Object(o), Step::Field(k)) => match entry(o, k) {
                Some(c) => at_steps(c, p, i + 1),
                None => None,
            },
            (Val::Array(a), Step::Item(n)) => if 0 <= n < a.len() {
                at_steps(a[n], p, i + 1)
            } else {
                None
            },
            _ => None,
        }
    } else {
        Some(v)
    }
}

/// Whether no step from an array to an item leads on to an item of that item.
pub open spec fn is_walk(p: Seq<Step>) -> bool {
    forall|i: int| 0 < i < p.len() && p[i - 1] is Item ==> (#[trigger] p[i]) is Field
}

/// Whether the steps from the `i`-th on lead to an object with at least two
/// entries that has the digest `h`.
pub open spec fn leads_to_part(v: Val, p: Seq<Step>, i: int, h: Text) -> bool {
    at_steps(v, p, i) matches Some(Val::Object(o)) && o.len() >= 2 && root_digest(Val::Object(o))
        == h
}

// ---------------------------------------------------------------------------
// How often a part occurs

/// How many of the values have the digest `h`.
pub open spec fn occurrences(p: Seq<Val>, h: Text) -> nat
    decreases p.len(),
{
    if p.len() == 0 {
        0
    } else {
        occurrences(p.drop_last(), h) + (if root_digest(p.last()) == h {
            1nat
        } else {
            0nat
        })
    }
}

/// Values one behind the other.
proof fn lemma_occurrences(a: Seq<Val>, b: Seq<Val>, h: Text)
    ensures
        occurrences(a + b, h) == occurrences(a, h) + occurrences(b, h),
    decreases b.len(),
{
    if b.len() == 0 {
        assert(a + b =~= a);
    } else {
        assert((a + b).drop_last() =~= a + b.drop_last());
        lemma_occurrences(a, b.drop_last(), h);
    }
}

/// One value.
proof fn lemma_one_occurrence(v: Val, h: Text)
    ensures
        occurrences(seq![v], h) == if root_digest(v) == h {
            1nat
        } else {
            0nat
        },
{
    reveal_with_fuel(occurrences, 2);
    assert(seq![v].drop_last() =~= seq![]);
}

/// The parts of what stands under a key.
pub open spec fn parts_below(c: Val) -> Seq<Val> {
    match c {
        Val::Array(a) => item_parts(a, 0),
        _ => own_parts(c),
    }
}

/// The parts of what stands under a key are those of an array, or those of an
/// object with itself.
proof fn lemma_parts_below(c: Val)
    ensures
        c is Array ==> parts_below(c) == parts(c),
        c is Object ==> parts_below(c) == own_parts(c),
{
}

/// Steps that lead on lead into an object by a key, or into an array by a
/// position.
proof fn lemma_step(c: Val, p: Seq<Step>, i: int)
    ensures
        0 <= i < p.len() && at_steps(c, p, i) is Some ==> (c is Object && p[i] is Field) || (c is Array
            && p[i] is Item),
{
}

/// The parts of the entries are those of each entry.
proof fn lemma_entry_parts(o: Entries, i: int, j: int, h: Text)
    requires
        0 <= i <= j < o.len(),
    ensures
        occurrences(entry_parts(o, i), h) >= occurrences(parts_below(o[j].1), h),
    decreases j - i,
{
    lemma_occurrences(parts_below(o[i].1), entry_parts(o, i + 1), h);
    if i < j {
        lemma_entry_parts(o, i + 1, j, h);
    }
}

/// The parts of the entries are those of each two entries.
proof fn lemma_two_entries(o: Entries, i: int, j: int, k: int, h: Text)
    requires
        0 <= i <= j < k < o.len(),
    ensures
        occurrences(entry_parts(o, i), h) >= occurrences(parts_below(o[j].1), h) + occurrences(
            parts_below(o[k].1),
            h,
        ),
    decreases j - i,
{
    lemma_occurrences(parts_below(o[i].1), entry_parts(o, i + 1), h);
    if i < j {
        lemma_two_entries(o, i + 1, j, k, h);
    } else {
        lemma_entry_parts(o, i + 1, k, h);
    }
}

/// The parts of the items are those of each item.
proof fn lemma_item_parts(a: Seq<Val>, i: int, j: int, h: Text)
    requires
        0 <= i <= j < a.len(),
    ensures
        occurrences(item_parts(a, i), h) >= occurrences(own_parts(a[j]), h),
    decreases j - i,
{
    lemma_occurrences(own_parts(a[i]), item_parts(a, i + 1), h);
    if i < j {
        lemma_item_parts(a, i + 1, j, h);
    }
}

/// The parts of the items are those of each two items.
proof fn lemma_two_items(a: Seq<Val>, i: int, j: int, k: int, h: Text)
    requires
        0 <= i <= j < k < a.len(),
    ensures
        occurrences(item_parts(a, i), h) >= occurrences(own_parts(a[j]), h) + occurrences(
            own_parts(a[k]),
            h,
        ),
    decreases j - i,
{
    lemma_occurrences(own_parts(a[i]), item_parts(a, i + 1), h);
    if i < j {
        lemma_two_items(a, i + 1, j, k, h);
    } else {
        lemma_item_parts(a, i + 1, k, h);
    }
}

/// An object with at least two entries is among its own parts.
proof fn lemma_own_parts(v: Val, h: Text)
    ensures
        v is Object ==> occurrences(own_parts(v), h) >= occurrences(parts(v), h),
        v matches Val::Object(o) ==> o.len() >= 2 && root_digest(v) == h ==> occurrences(
            own_parts(v),
            h,
        ) >= occurrences(parts(v), h) + 1,
{
    if let Val::Object(o) = v {
        if o.len() >= 2 {
            lemma_occurrences(seq![v], parts(v), h);
            lemma_one_occurrence(v, h);
        }
    }
}

/// A part that steps lead to occurs.
proof fn lemma_occurs(v: Val, p: Seq<Step>, i: int, h: Text)
    requires
        0 <= i < p.len(),
        is_walk(p),
        leads_to_part(v, p, i, h),
    ensures
        occurrences(parts(v), h) >= 1,
    decreases p.len() - i, 0int,
{
    match v {
        Val::Object(o) => {
            let k = p[i]->Field_0;
            let j = key_index(o, k);
            lemma_key_index(o, k);
            lemma_occurs_below(o[j].1, p, i + 1, h, true);
            lemma_entry_parts(o, 0, j, h);
        },
        Val::Array(a) => {
            let n = p[i]->Item_0;
            lemma_occurs_below(a[n], p, i + 1, h, false);
            lemma_item_parts(a, 0, n, h);
        },
        _ => {},
    }
}

/// A part that a step and others behind it lead to occurs.
proof fn lemma_occurs_below(c: Val, p: Seq<Step>, i: int, h: Text, keyed: bool)
    requires
        0 < i <= p.len(),
        is_walk(p),
        keyed == (p[i - 1] is Field),
        leads_to_part(c, p, i, h),
    ensures
        keyed ==> occurrences(parts_below(c), h) >= 1,
        !keyed ==> occurrences(own_parts(c), h) >= 1,
    decreases p.len() - i, 1int,
{
    lemma_own_parts(c, h);
    lemma_parts_below(c);
    if i < p.len() {
        lemma_occurs(c, p, i, h);
        lemma_step(c, p, i);
        assert(keyed || p[i] is Field);
    } else {
        assert(c is Object);
    }
}

/// A part that two different rows of steps lead to occurs twice.
proof fn lemma_occurs_twice(v: Val, p: Seq<Step>, q: Seq<Step>, i: int, h: Text)
    requires
        0 <= i < p.len(),
        i < q.len(),
        well_keyed(v),
        is_walk(p),
        is_walk(q),
        forall|j: int| 0 <= j < i ==> p[j] == q[j],
        p != q,
        leads_to_part(v, p, i, h),
        leads_to_part(v, q, i, h),
    ensures
        occurrences(parts(v), h) >= 2,
    decreases p.len() - i, 0int,
{
    match v {
        Val::Object(o) => {
            let k = p[i]->Field_0;
            let l = q[i]->Field_0;
            let j = key_index(o, k);
            let m = key_index(o, l);
            lemma_key_index(o, k);
            lemma_key_index(o, l);
            if j == m {
                assert(p[i] == q[i]);
                lemma_entry_keyed(o, 0, j);
                lemma_twice_below(o[j].1, p, q, i + 1, h, true);
                lemma_entry_parts(o, 0, j, h);
            } else {
                lemma_occurs_below(o[j].1, p, i + 1, h, true);
                lemma_occurs_below(o[m].1, q, i + 1, h, true);
                if j < m {
                    lemma_two_entries(o, 0, j, m, h);
                } else {
                    lemma_two_entries(o, 0, m, j, h);
                }
            }
        },
        Val::Array(a) => {
            let n = p[i]->Item_0;
            let m = q[i]->Item_0;
            if n == m {
                assert(p[i] == q[i]);
                lemma_item_keyed(a, 0, n);
                lemma_twice_below(a[n], p, q, i + 1, h, false);
                lemma_item_parts(a, 0, n, h);
            } else {
                lemma_occurs_below(a[n], p, i + 1, h, false);
                lemma_occurs_below(a[m], q, i + 1, h, false);
                if n < m {
                    lemma_two_items(a, 0, n, m, h);
                } else {
                    lemma_two_items(a, 0, m, n, h);
                }
            }
        },
        _ => {},
    }
}

/// An item among items without a key twice.
pub proof fn lemma_item_keyed(a: Seq<Val>, i: int, k: int)
    requires
        crate::value::items_well_keyed(a, i),
        0 <= i <= k < a.len(),
    ensures
        well_keyed(a[k]),
    decreases k - i,
{
    if i < k {
        lemma_item_keyed(a, i + 1, k);
    }
}

/// A part that two different rows of steps with the same start lead to occurs
/// twice behind that start.
proof fn lemma_twice_below(c: Val, p: Seq<Step>, q: Seq<Step>, i: int, h: Text, keyed: bool)
    requires
        0 < i <= p.len(),
        i <= q.len(),
        well_keyed(c),
        is_walk(p),
        is_walk(q),
        forall|j: int| 0 <= j < i ==> p[j] == q[j],
        p != q,
        keyed == (p[i - 1] is Field),
        leads_to_part(c, p, i, h),
        leads_to_part(c, q, i, h),
    ensures
        keyed ==> occurrences(parts_below(c), h) >= 2,
        !keyed ==> occurrences(own_parts(c), h) >= 2,
    decreases p.len() - i, 1int,
{
    lemma_own_parts(c, h);
    lemma_parts_below(c);
    lemma_step(c, p, i);
    lemma_step(c, q, i);
    if i == p.len() && i == q.len() {
        assert(p =~= q);
    } else if i == p.len() {
        lemma_occurs(c, q, i, h);
    } else if i == q.len() {
        lemma_occurs(c, p, i, h);
    } else {
        lemma_occurs_twice(c, p, q, i, h);
        assert(keyed || p[i] is Field);
    }
}

// ---------------------------------------------------------------------------
// The tallies tell how often

/// How often the part with the digest `h` was met.
pub open spec fn met(t: Tallies, h: Text) -> nat {
    match entry(t, h) {
        Some(x) => x.count,
        None => 0,
    }
}

/// A number of occurrences, as far as it can be counted.
pub open spec fn capped(n: nat) -> nat {
    if n <= usize::MAX {
        n
    } else {
        usize::MAX as nat
    }
}

/// Whether tallies are kept by the digests of what was met, each of which was met
/// at least once.
pub open spec fn is_kept(t: Tallies) -> bool {
    &&& forall|i: int|
        0 <= i < t.len() ==> root_digest((#[trigger] t[i]).1.data) == t[i].0 && 1 <= t[i].1.count
            <= usize::MAX
    &&& forall|i: int, j: int| 0 <= i < j < t.len() ==> (#[trigger] t[i]).0 != (#[trigger] t[j]).0
}

/// Whether `d` is one of the values of `p`, or was met before.
pub open spec fn comes_from(s: Tallies, p: Seq<Val>, d: Val) -> bool {
    p.contains(d) || exists|j: int| 0 <= j < s.len() && (#[trigger] s[j]).1.data == d
}

/// Whether `t` are the tallies `s` with the values of `p` counted.
pub open spec fn tells(s: Tallies, p: Seq<Val>, t: Tallies) -> bool {
    &&& is_kept(t)
    &&& forall|i: int| 0 <= i < t.len() ==> comes_from(s, p, (#[trigger] t[i]).1.data)
    &&& forall|h: Text| #[trigger] met(t, h) == capped(met(s, h) + occurrences(p, h))
}

/// Values counted one row behind the other.
proof fn lemma_tells(s: Tallies, p: Seq<Val>, t: Tallies, q: Seq<Val>, u: Tallies)
    requires
        tells(s, p, t),
        tells(t, q, u),
    ensures
        tells(s, p + q, u),
{
    assert forall|h: Text| #[trigger] met(u, h) == capped(met(s, h) + occurrences(p + q, h)) by {
        lemma_occurrences(p, q, h);
        assert(met(t, h) == capped(met(s, h) + occurrences(p, h)));
        assert(met(u, h) == capped(met(t, h) + occurrences(q, h)));
    }
    assert forall|i: int| 0 <= i < u.len() implies comes_from(s, p + q, (#[trigger] u[i]).1.data) by {
        let d = u[i].1.data;
        if q.contains(d) {
            let j = choose|j: int| 0 <= j < q.len() && q[j] == d;
            assert((p + q)[p.len() + j] == d);
        } else {
            let j = choose|j: int| 0 <= j < t.len() && (#[trigger] t[j]).1.data == d;
            assert(comes_from(s, p, t[j].1.data));
            if p.contains(d) {
                let h = choose|h: int| 0 <= h < p.len() && p[h] == d;
                assert((p + q)[h] == d);
            }
        }
    }
}

/// Nothing counted.
proof fn lemma_tells_nothing(s: Tallies)
    requires
        is_kept(s),
    ensures
        tells(s, seq![], s),
{
    assert forall|h: Text| #[trigger] met(s, h) == capped(met(s, h) + occurrences(seq![], h)) by {
        lemma_key_index(s, h);
    }
}

/// One part counted.
proof fn lemma_tells_one(s: Tallies, v: Val, path: Text)
    requires
        is_kept(s),
    ensures
        tells(s, seq![v], registered(s, v, path)),
{
    let hash = root_digest(v);
    let t = registered(s, v, path);
    lemma_key_index(s, hash);
    assert forall|i: int| 0 <= i < t.len() implies root_digest((#[trigger] t[i]).1.data) == t[i].0
        && 1 <= t[i].1.count <= usize::MAX by {
        if has_key(s, hash) {
            assert(root_digest(s[key_index(s, hash)].1.data) == hash);
            if i != key_index(s, hash) {
                assert(t[i] == s[i]);
            }
        } else if i < s.len() {
            assert(t[i] == s[i]);
        }
    }
    assert forall|i: int, j: int| 0 <= i < j < t.len() implies (#[trigger] t[i]).0 != (#[trigger] t[j]).0 by {
        if has_key(s, hash) {
            assert(t[i].0 == s[i].0 && t[j].0 == s[j].0);
        } else {
            assert(t[i] == s[i]);
            if j < s.len() {
                assert(t[j] == s[j]);
            }
        }
    }
    assert forall|i: int| 0 <= i < t.len() implies comes_from(s, seq![v], (#[trigger] t[i]).1.data) by {
        if has_key(s, hash) || i < s.len() {
            assert(s[i].1.data == t[i].1.data);
        } else {
            assert(seq![v][0] == t[i].1.data);
        }
    }
    assert forall|h: Text| #[trigger] met(t, h) == capped(met(s, h) + occurrences(seq![v], h)) by {
        lemma_one_occurrence(v, h);
        lemma_key_index(s, h);
        match entry(s, hash) {
            Some(x) => {
                let y = Tally {
                    count: if x.count < usize::MAX {
                        x.count + 1
                    } else {
                        x.count
                    },
                    ..x
                };
                lemma_put(s, hash, y, h);
            },
            None => {
                lemma_put(s, hash, Tally { count: 1, path, data: v }, h);
            },
        }
    }
}

/// The parts of a value counted.
proof fn lemma_tells_parts(v: Val, path: Text, s: Tallies)
    requires
        is_kept(s),
    ensures
        tells(s, parts(v), collected(v, path, s, 2)),
    decreases v, 0int,
{
    match v {
        Val::Object(o) => {
            assert(decreases_to!(v => o));
            lemma_tells_entries(o, path, s, 0);
        },
        Val::Array(a) => {
            assert(decreases_to!(v => a));
            lemma_tells_list(a, path, s, 0);
        },
        _ => {
            lemma_tells_nothing(s);
        },
    }
}

/// A value and its parts counted.
proof fn lemma_tells_own(v: Val, path: Text, s: Tallies)
    requires
        is_kept(s),
    ensures
        tells(s, own_parts(v), visited(v, path, s, 2)),
    decreases v, 1int,
{
    match v {
        Val::Object(o) => {
            if o.len() == 0 {
                assert(parts(v) =~= seq![]);
                lemma_tells_nothing(s);
            } else if o.len() >= 2 {
                lemma_tells_one(s, v, path);
                let t = registered(s, v, path);
                lemma_tells_parts(v, path, t);
                lemma_tells(s, seq![v], t, parts(v), collected(v, path, t, 2));
            } else {
                lemma_tells_parts(v, path, s);
            }
        },
        _ => {
            lemma_tells_nothing(s);
        },
    }
}

/// The parts of the entries from `i` on counted.
proof fn lemma_tells_entries(o: Entries, path: Text, s: Tallies, i: int)
    requires
        0 <= i <= o.len(),
        is_kept(s),
    ensures
        tells(s, entry_parts(o, i), collected_entries(o, path, s, 2, i)),
    decreases o, o.len() - i,
{
    if i < o.len() {
        let v = o[i].1;
        let child = below(path, o[i].0);
        lemma_entry_smaller(o, i);
        let next = match v {
            Val::Array(a) => collected_items(a, child, s, 2, 0),
            _ => visited(v, child, s, 2),
        };
        match v {
            Val::Array(a) => {
                assert(decreases_to!(v => a));
                lemma_tells_items(a, child, s, 0);
            },
            _ => {
                lemma_tells_own(v, child, s);
            },
        }
        lemma_tells_entries(o, path, next, i + 1);
        lemma_tells(
            s,
            parts_below(v),
            next,
            entry_parts(o, i + 1),
            collected_entries(o, path, next, 2, i + 1),
        );
    } else {
        lemma_tells_nothing(s);
    }
}

/// The parts of the items of a list under a key counted.
proof fn lemma_tells_items(a: Seq<Val>, path: Text, s: Tallies, i: int)
    requires
        0 <= i <= a.len(),
        is_kept(s),
    ensures
        tells(s, item_parts(a, i), collected_items(a, path, s, 2, i)),
    decreases a, a.len() - i,
{
    if i < a.len() {
        lemma_item_smaller(a, i);
        let next = visited(a[i], item_path(path, i), s, 2);
        lemma_tells_own(a[i], item_path(path, i), s);
        lemma_tells_items(a, path, next, i + 1);
        lemma_tells(
            s,
            own_parts(a[i]),
            next,
            item_parts(a, i + 1),
            collected_items(a, path, next, 2, i + 1),
        );
    } else {
        lemma_tells_nothing(s);
    }
}

/// The parts of the items of a list counted.
proof fn lemma_tells_list(a: Seq<Val>, path: Text, s: Tallies, i: int)
    requires
        0 <= i <= a.len(),
        is_kept(s),
    ensures
        tells(s, item_parts(a, i), collected_list(a, path, s, 2, i)),
    decreases a, a.len() - i,
{
    if i < a.len() {
        lemma_item_smaller(a, i);
        let next = visited(a[i], list_path(path, i), s, 2);
        lemma_tells_own(a[i], list_path(path, i), s);
        lemma_tells_list(a, path, next, i + 1);
        lemma_tells(
            s,
            own_parts(a[i]),
            next,
            item_parts(a, i + 1),
            collected_list(a, path, next, 2, i + 1),
        );
    } else {
        lemma_tells_nothing(s);
    }
}

/// What steps lead to is met, and what two different rows of steps lead to is met
/// at least twice: an object with at least two entries, by its digest.
pub proof fn what_occurs_twice_is_met_twice(
    v: Val,
    path: Text,
    p: Seq<Step>,
    q: Seq<Step>,
    h: Text,
)
    requires
        well_keyed(v),
        p.len() > 0,
        is_walk(p),
        leads_to_part(v, p, 0, h),
    ensures
        ({
            let t = collected(v, path, seq![], 2);
            &&& met(t, h) >= 1
            &&& root_digest(entry(t, h)->0.data) == h
            &&& p != q && q.len() > 0 && is_walk(q) && leads_to_part(v, q, 0, h) ==> met(t, h) >= 2
        }),
{
    let none: Tallies = seq![];
    let t = collected(v, path, none, 2);
    lemma_tells_parts(v, path, none);
    lemma_key_index(none, h);
    lemma_key_index(t, h);
    lemma_occurs(v, p, 0, h);
    assert(met(t, h) == capped(met(none, h) + occurrences(parts(v), h)));
    if p != q && q.len() > 0 && is_walk(q) && leads_to_part(v, q, 0, h) {
        lemma_occurs_twice(v, p, q, 0, h);
    }
    assert(root_digest(t[key_index(t, h)].1.data) == h);
}

// ---------------------------------------------------------------------------
// What is met twice is defined

/// Whether no other part that was met twice has the name of the `i`-th.
pub open spec fn is_named_alone(t: Tallies, i: int) -> bool {
    forall|j: int|
        0 <= j < t.len() && j != i && (#[trigger] t[j]).1.count >= 2 ==> schema_name(t[j].1.path)
            != schema_name(t[i].1.path)
}

/// What is defined stays defined, and what is met twice is defined.
proof fn lemma_defined(s: Stores, t: Tallies, i: int, j: int, name: Text)
    requires
        0 <= i <= t.len(),
    ensures
        ({
            let r = with_repeated(s, t, i).schemas;
            &&& has_key(s.schemas, name) ==> has_key(r, name)
            &&& i <= j < t.len() && t[j].1.count >= 2 ==> has_key(r, schema_name(t[j].1.path))
            &&& i <= j < t.len() && t[j].1.count >= 2 && is_named_alone(t, j) ==> entry(
                r,
                schema_name(t[j].1.path),
            ) == Some(t[j].1.data)
            &&& (forall|h: int|
                i <= h < t.len() && (#[trigger] t[h]).1.count >= 2 ==> schema_name(t[h].1.path)
                    != name) ==> entry(r, name) == entry(s.schemas, name)
        }),
    decreases t.len() - i,
{
    if i < t.len() {
        let own = schema_name(t[i].1.path);
        let next = if t[i].1.count >= 2 {
            defined(s, DefType::Schema, own, t[i].1.data)
        } else {
            s
        };
        lemma_put(s.schemas, own, t[i].1.data, name);
        lemma_put(s.schemas, own, t[i].1.data, own);
        lemma_key_index(s.schemas, name);
        lemma_defined(next, t, i + 1, j, name);
        if i == j && t[i].1.count >= 2 {
            lemma_defined(next, t, i + 1, i + 1, own);
        }
    }
}

/// What was defined before, and the parts that were met twice, is all that is
/// defined.
proof fn lemma_only_defined(s: Stores, t: Tallies, i: int, name: Text)
    requires
        0 <= i <= t.len(),
        has_key(with_repeated(s, t, i).schemas, name),
    ensures
        ({
            let d = entry(with_repeated(s, t, i).schemas, name)->0;
            ||| entry(s.schemas, name) == Some(d)
            ||| exists|j: int|
                i <= j < t.len() && (#[trigger] t[j]).1.count >= 2 && t[j].1.data == d
                    && schema_name(t[j].1.path) == name
        }),
    decreases t.len() - i,
{
    if i < t.len() {
        let own = schema_name(t[i].1.path);
        let next = if t[i].1.count >= 2 {
            defined(s, DefType::Schema, own, t[i].1.data)
        } else {
            s
        };
        lemma_put(s.schemas, own, t[i].1.data, name);
        lemma_only_defined(next, t, i + 1, name);
    }
}

/// Every object with at least two entries that stands at two places or more in a
/// value is defined where an encoder defines repeated parts. The name comes from
/// the place at which it was first met; where no other repeated part has that
/// name, what is defined under it has the digest of the object.
pub proof fn what_occurs_twice_is_defined(
    m: Manner,
    v: Val,
    p: Seq<Step>,
    q: Seq<Step>,
    h: Text,
)
    requires
        m.auto,
        well_keyed(v),
        p != q,
        p.len() > 0,
        q.len() > 0,
        is_walk(p),
        is_walk(q),
        leads_to_part(v, p, 0, h),
        leads_to_part(v, q, 0, h),
    ensures
        ({
            let t = collected(v, seq![], seq![], 2);
            let name = schema_name(entry(t, h)->0.path);
            let d = stores_for(m, v).schemas;
            &&& has_key(t, h)
            &&& has_key(d, name)
            &&& is_named_alone(t, key_index(t, h)) ==> root_digest(entry(d, name)->0) == h
        }),
{
    let t = collected(v, seq![], seq![], 2);
    let i = key_index(t, h);
    lemma_key_index(t, h);
    what_occurs_twice_is_met_twice(v, seq![], p, q, h);
    lemma_defined(m.stores, t, 0, i, seq![]);
}

/// Nothing is defined but what was defined before and the parts of the value that
/// occur more than once.
pub proof fn only_what_occurs_twice_is_defined(m: Manner, v: Val, name: Text)
    requires
        has_key(stores_for(m, v).schemas, name),
    ensures
        ({
            let d = entry(stores_for(m, v).schemas, name)->0;
            ||| entry(m.stores.schemas, name) == Some(d)
            ||| m.auto && occurrences(parts(v), root_digest(d)) >= 2
        }),
{
    let none: Tallies = seq![];
    let t = collected(v, seq![], none, 2);
    if stores_for(m, v) != m.stores {
        lemma_tells_parts(v, seq![], none);
        lemma_only_defined(m.stores, t, 0, name);
        let d = entry(stores_for(m, v).schemas, name)->0;
        if entry(m.stores.schemas, name) != Some(d) {
            let j = choose|j: int|
                0 <= j < t.len() && (#[trigger] t[j]).1.count >= 2 && t[j].1.data == d && schema_name(
                    t[j].1.path,
                ) == name;
            let h = t[j].0;
            assert(root_digest(t[j].1.data) == h);
            lemma_key_index(t, h);
            lemma_key_index(none, h);
            assert(met(t, h) == capped(met(none, h) + occurrences(parts(v), h)));
        }
    }
}

// ---------------------------------------------------------------------------
// What is defined is referred to

/// A definition that equals a value is found, and it does equal the value.
proof fn lemma_match(d: Entries, v: Val, i: int, j: int)
    requires
        0 <= i <= j < d.len(),
        val_eq(v, d[j].1),
    ensures
        matching_schema(d, v, i) is Some,
        distinct(d) ==> has_key(d, matching_schema(d, v, i)->0) && val_eq(
            v,
            entry(d, matching_schema(d, v, i)->0)->0,
        ),
    decreases j - i,
{
    if val_eq(v, d[i].1) {
        if distinct(d) {
            lemma_entry_found(d, i);
        }
    } else {
        lemma_match(d, v, i + 1, j);
    }
}

/// An object that equals a definition is written as a reference to one that it
/// equals, on one line under its key or behind a dash.
pub proof fn what_is_defined_is_referred_to(e: Style, k: Text, o: Entries, depth: int, j: int)
    requires
        o.len() > 0,
        distinct(e.schemas),
        0 <= j < e.schemas.len(),
        val_eq(Val::Object(o), e.schemas[j].1),
    ensures
        exists|name: Text|
            {
                &&& #[trigger] has_key(e.schemas, name)
                &&& val_eq(Val::Object(o), entry(e.schemas, name)->0)
                &&& written_entry(e, k, Val::Object(o), depth, true) == seq![
                    Line { depth, text: key_text(k) + ": @s:"@ + name },
                ]
                &&& written_item(e, Val::Object(o), depth) == seq![
                    Line { depth, text: "- @s:"@ + name },
                ]
            },
{
    let v = Val::Object(o);
    lemma_match(e.schemas, v, 0, j);
    let name = matching_schema(e.schemas, v, 0)->0;
    assert(has_key(e.schemas, name));
}

/// The lines for the entries hold those for each of them.
proof fn lemma_entry_lines(e: Style, o: Entries, depth: int, i: int, j: int, l: Line)
    requires
        0 <= i <= j < o.len(),
        written_entry(e, o[j].0, o[j].1, depth, true).contains(l),
    ensures
        written_entries(e, o, depth, i).contains(l),
    decreases j - i,
{
    let w = written_entry(e, o[i].0, o[i].1, depth, true);
    let rest = written_entries(e, o, depth, i + 1);
    let all = written_entries(e, o, depth, i);
    assert(all == w + rest);
    if i < j {
        lemma_entry_lines(e, o, depth, i + 1, j, l);
        let h = choose|h: int| 0 <= h < rest.len() && rest[h] == l;
        assert(all[w.len() + h] == l);
    } else {
        let h = choose|h: int| 0 <= h < w.len() && w[h] == l;
        assert(all[h] == l);
    }
}

/// Whether what the keys lead to from the `i`-th on, but for what they lead to in
/// the end, is written out: none of it equals a definition.
pub open spec fn is_written_out(e: Style, v: Val, keys: Seq<Text>, i: int) -> bool {
    forall|n: int|
        i < n < keys.len() ==> (#[trigger] at_path(v, keys.subrange(0, n), i) matches Some(c)
            ==> matching_schema(e.schemas, c, 0) is None)
}

/// A reference stands on the line of its key in the lines for the object that the
/// keys lead into.
proof fn lemma_reference_lines(e: Style, o: Entries, keys: Seq<Text>, i: int, x: Val)
    requires
        0 <= i < keys.len(),
        at_path(Val::Object(o), keys, i) == Some(x),
        x matches Val::Object(y) && y.len() > 0,
        matching_schema(e.schemas, x, 0) is Some,
        is_written_out(e, Val::Object(o), keys, i),
    ensures
        written_entries(e, o, i, 0).contains(
            Line {
                depth: keys.len() - 1,
                text: key_text(keys.last()) + ": @s:"@ + matching_schema(e.schemas, x, 0)->0,
            },
        ),
    decreases keys.len() - i,
{
    let v = Val::Object(o);
    let l = Line {
        depth: keys.len() - 1,
        text: key_text(keys.last()) + ": @s:"@ + matching_schema(e.schemas, x, 0)->0,
    };
    let k = keys[i];
    lemma_key_index(o, k);
    let j = key_index(o, k);
    let c = o[j].1;
    assert(entry(o, k) == Some(c));
    let w = written_entry(e, k, c, i, true);
    if i == keys.len() - 1 {
        assert(at_path(c, keys, i + 1) == Some(c));
        assert(w[0] == l);
        assert(w.contains(l));
    } else {
        assert(at_path(c, keys, i + 1) == Some(x));
        assert(c is Object);
        let m = c->Object_0;
        assert(entry(m, keys[i + 1]) is Some);
        lemma_key_index(m, keys[i + 1]);
        let head = keys.subrange(0, i + 1);
        assert(at_path(c, head, i + 1) == Some(c));
        assert(at_path(v, head, i) == Some(c));
        assert(matching_schema(e.schemas, c, 0) is None);
        assert forall|n: int| i + 1 < n < keys.len() implies (#[trigger] at_path(
            c,
            keys.subrange(0, n),
            i + 1,
        ) matches Some(d) ==> matching_schema(e.schemas, d, 0) is None) by {
            let part = keys.subrange(0, n);
            assert(part[i] == k);
            assert(at_path(v, part, i) == at_path(c, part, i + 1));
        }
        lemma_reference_lines(e, m, keys, i + 1, x);
        let inner = written_entries(e, m, i + 1, 0);
        let h = choose|h: int| 0 <= h < inner.len() && inner[h] == l;
        assert(w == seq![Line { depth: i, text: key_text(k) + ":"@ }] + inner);
        assert(w[h + 1] == l);
        assert(w.contains(l));
    }
    lemma_entry_lines(e, o, i, 0, j, l);
}

/// An object with at least two entries that keys lead to at two places or more is
/// defined once and referred to: where no two repeated parts have one name, and
/// none but an equal one has its digest, a definition equals it, and the line of
/// each key that leads to it, where nothing on the way is referred to itself, is a
/// reference to a definition that equals it.
pub proof fn what_occurs_twice_is_referred_to(
    m: Manner,
    o: Entries,
    p: Seq<Text>,
    q: Seq<Text>,
    x: Val,
)
    requires
        m.auto,
        distinct(m.stores.schemas),
        well_keyed(Val::Object(o)),
        p != q,
        p.len() > 0,
        q.len() > 0,
        at_path(Val::Object(o), p, 0) == Some(x),
        at_path(Val::Object(o), q, 0) == Some(x),
        x matches Val::Object(y) && y.len() >= 2,
        ({
            let t = collected(Val::Object(o), seq![], seq![], 2);
            is_named_alone(t, key_index(t, root_digest(x)))
        }),
        forall|d: Val|
            parts(Val::Object(o)).contains(d) && #[trigger] root_digest(d) == root_digest(x)
                ==> val_eq(x, d),
    ensures
        ({
            let v = Val::Object(o);
            let e = style_for(m, v);
            &&& exists|name: Text|
                {
                    &&& #[trigger] has_key(e.schemas, name)
                    &&& val_eq(x, entry(e.schemas, name)->0)
                    &&& is_written_out(e, v, p, 0) ==> written_value(e, v).contains(
                        Line { depth: p.len() - 1, text: key_text(p.last()) + ": @s:"@ + name },
                    )
                    &&& is_written_out(e, v, q, 0) ==> written_value(e, v).contains(
                        Line { depth: q.len() - 1, text: key_text(q.last()) + ": @s:"@ + name },
                    )
                }
        }),
{
    let v = Val::Object(o);
    let e = style_for(m, v);
    let h = root_digest(x);
    let none: Tallies = seq![];
    let t = collected(v, seq![], none, 2);
    let i = key_index(t, h);
    let ps = fields_of(p);
    let qs = fields_of(q);
    lemma_fields_of(v, p, 0);
    lemma_fields_of(v, q, 0);
    assert(ps != qs) by {
        if ps == qs {
            assert forall|j: int| 0 <= j < p.len() implies p[j] == q[j] by {
                assert(ps[j] == qs[j]);
            }
            assert(p.len() == ps.len() && q.len() == qs.len());
            assert(p =~= q);
        }
    }
    lemma_key_index(t, h);
    what_occurs_twice_is_met_twice(v, seq![], ps, qs, h);
    lemma_defined(m.stores, t, 0, i, seq![]);
    lemma_tells_parts(v, seq![], none);
    assert(comes_from(none, parts(v), t[i].1.data));
    let d = t[i].1.data;
    assert(root_digest(d) == h);
    assert(val_eq(x, d));
    let name = schema_name(t[i].1.path);
    lemma_key_index(e.schemas, name);
    let j = key_index(e.schemas, name);
    lemma_repeated(m.stores, t, 0);
    lemma_match(e.schemas, x, 0, j);
    let found = matching_schema(e.schemas, x, 0)->0;
    assert(has_key(e.schemas, found));
    lemma_key_index(o, p[0]);
    if is_written_out(e, v, p, 0) {
        lemma_reference_lines(e, o, p, 0, x);
    }
    if is_written_out(e, v, q, 0) {
        lemma_reference_lines(e, o, q, 0, x);
    }
}

/// Keys as steps.
pub open spec fn fields_of(p: Seq<Text>) -> Seq<Step> {
    Seq::new(p.len(), |i: int| Step::Field(p[i]))
}

/// Keys lead as steps to what they lead to as a path.
proof fn lemma_fields_of(v: Val, p: Seq<Text>, i: int)
    requires
        0 <= i <= p.len(),
    ensures
        at_steps(v, fields_of(p), i) == at_path(v, p, i),
        is_walk(fields_of(p)),
    decreases p.len() - i,
{
    if i < p.len() {
        if let Val::Object(o) = v {
            if let Some(c) = entry(o, p[i]) {
                lemma_fields_of(c, p, i + 1);
            }
        }
    }
}

} // verus!
