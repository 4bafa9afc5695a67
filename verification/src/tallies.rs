//! What a count of the parts of a value tells of each: where it stands first.

use vstd::prelude::*;
use crate::number::integer_text;
use crate::repeats::{at_steps, is_walk, lemma_item_keyed, Step};
use crate::text::Text;
use crate::treehash::{
    below, collected, collected_entries, collected_items, collected_list, item_path, list_path,
    registered, root_digest, visited, Tallies, Tally,
};
use crate::value::{
    entry, has_key, key_index, lemma_entry_found, lemma_entry_keyed, lemma_entry_smaller,
    lemma_item_smaller, lemma_key_index, well_keyed, Entries, Val,
};

verus! {

// ---------------------------------------------------------------------------
// What was met stays

/// Whether `t` are the tallies `s`, each with the place and the value that it had
/// and no lower count, and perhaps others behind them.
pub open spec fn stays(s: Tallies, t: Tallies) -> bool {
    &&& s.len() <= t.len()
    &&& forall|i: int|
        0 <= i < s.len() ==> (#[trigger] t[i]).0 == s[i].0 && t[i].1.path == s[i].1.path
            && t[i].1.data == s[i].1.data && t[i].1.count >= s[i].1.count
}

/// What stays, stays.
proof fn lemma_stays(s: Tallies, t: Tallies, u: Tallies)
    requires
        stays(s, t),
        stays(t, u),
    ensures
        stays(s, u),
{
    assert forall|i: int| 0 <= i < s.len() implies (#[trigger] u[i]).0 == s[i].0 && u[i].1.path
        == s[i].1.path && u[i].1.data == s[i].1.data && u[i].1.count >= s[i].1.count by {
        assert(t[i].0 == s[i].0);
        assert(u[i].0 == t[i].0);
    }
}

/// A key that was there is there.
proof fn lemma_has_stays(s: Tallies, t: Tallies, h: Text)
    requires
        stays(s, t),
        has_key(s, h),
    ensures
        has_key(t, h),
{
    lemma_key_index(s, h);
    lemma_key_index(t, h);
    let i = key_index(s, h);
    assert(t[i].0 == h);
}

/// One part counted.
proof fn lemma_stays_one(s: Tallies, v: Val, path: Text)
    ensures
        stays(s, registered(s, v, path)),
        has_key(registered(s, v, path), root_digest(v)),
        registered(s, v, path).len() > s.len() ==> registered(s, v, path) == s.push(
            (root_digest(v), Tally { count: 1, path, data: v }),
        ),
{
    let h = root_digest(v);
    let t = registered(s, v, path);
    lemma_key_index(s, h);
    lemma_key_index(t, h);
    if has_key(s, h) {
        assert(t[key_index(s, h)].0 == h);
    } else {
        assert(t[s.len() as int].0 == h);
    }
}

/// The parts of a value counted.
proof fn lemma_stays_parts(v: Val, path: Text, s: Tallies, min: nat)
    ensures
        stays(s, collected(v, path, s, min)),
    decreases v, 0int,
{
    match v {
        Val::Object(o) => {
            assert(decreases_to!(v => o));
            lemma_stays_entries(o, path, s, min, 0);
        },
        Val::Array(a) => {
            assert(decreases_to!(v => a));
            lemma_stays_list(a, path, s, min, 0);
        },
        _ => {},
    }
}

/// A value and its parts counted.
proof fn lemma_stays_own(v: Val, path: Text, s: Tallies, min: nat)
    ensures
        stays(s, visited(v, path, s, min)),
    decreases v, 1int,
{
    if let Val::Object(o) = v {
        if o.len() > 0 && o.len() >= min {
            let t = registered(s, v, path);
            lemma_stays_one(s, v, path);
            lemma_stays_parts(v, path, t, min);
            lemma_stays(s, t, collected(v, path, t, min));
        } else if o.len() > 0 {
            lemma_stays_parts(v, path, s, min);
        }
    }
}

/// What stands under a key counted.
pub open spec fn counted_below(c: Val, path: Text, s: Tallies, min: nat) -> Tallies {
    match c {
        Val::Array(a) => collected_items(a, path, s, min, 0),
        _ => visited(c, path, s, min),
    }
}

/// What stands under a key counted.
proof fn lemma_stays_below(c: Val, path: Text, s: Tallies, min: nat)
    ensures
        stays(s, counted_below(c, path, s, min)),
    decreases c, 2int,
{
    match c {
        Val::Array(a) => {
            assert(decreases_to!(c => a));
            lemma_stays_items(a, path, s, min, 0);
        },
        _ => {
            lemma_stays_own(c, path, s, min);
        },
    }
}

/// The parts of the entries from `i` on counted.
proof fn lemma_stays_entries(o: Entries, path: Text, s: Tallies, min: nat, i: int)
    requires
        0 <= i <= o.len(),
    ensures
        stays(s, collected_entries(o, path, s, min, i)),
    decreases o, o.len() - i,
{
    if i < o.len() {
        lemma_entry_smaller(o, i);
        let next = counted_below(o[i].1, below(path, o[i].0), s, min);
        lemma_stays_below(o[i].1, below(path, o[i].0), s, min);
        lemma_stays_entries(o, path, next, min, i + 1);
        lemma_stays(s, next, collected_entries(o, path, next, min, i + 1));
    }
}

/// The parts of the items of a list under a key counted.
proof fn lemma_stays_items(a: Seq<Val>, path: Text, s: Tallies, min: nat, i: int)
    requires
        0 <= i <= a.len(),
    ensures
        stays(s, collected_items(a, path, s, min, i)),
    decreases a, a.len() - i,
{
    if i < a.len() {
        lemma_item_smaller(a, i);
        let next = visited(a[i], item_path(path, i), s, min);
        lemma_stays_own(a[i], item_path(path, i), s, min);
        lemma_stays_items(a, path, next, min, i + 1);
        lemma_stays(s, next, collected_items(a, path, next, min, i + 1));
    }
}

/// The parts of the items of a list counted.
proof fn lemma_stays_list(a: Seq<Val>, path: Text, s: Tallies, min: nat, i: int)
    requires
        0 <= i <= a.len(),
    ensures
        stays(s, collected_list(a, path, s, min, i)),
    decreases a, a.len() - i,
{
    if i < a.len() {
        lemma_item_smaller(a, i);
        let next = visited(a[i], list_path(path, i), s, min);
        lemma_stays_own(a[i], list_path(path, i), s, min);
        lemma_stays_list(a, path, next, min, i + 1);
        lemma_stays(s, next, collected_list(a, path, next, min, i + 1));
    }
}

/// The parts of the entries before the last one are counted first.
proof fn lemma_entries_first(
    o: Entries,
    e: (Text, Val),
    path: Text,
    s: Tallies,
    min: nat,
    i: int,
)
    requires
        0 <= i <= o.len(),
    ensures
        stays(
            collected_entries(o, path, s, min, i),
            collected_entries(o.push(e), path, s, min, i),
        ),
    decreases o.len() - i,
{
    let p = o.push(e);
    if i < o.len() {
        assert(p[i] == o[i]);
        let next = counted_below(o[i].1, below(path, o[i].0), s, min);
        lemma_entries_first(o, e, path, next, min, i + 1);
    } else {
        lemma_stays_entries(p, path, s, min, i);
    }
}

/// The parts of the items before the last one are counted first.
proof fn lemma_items_first(a: Seq<Val>, v: Val, path: Text, s: Tallies, min: nat, i: int)
    requires
        0 <= i <= a.len(),
    ensures
        stays(collected_list(a, path, s, min, i), collected_list(a.push(v), path, s, min, i)),
    decreases a.len() - i,
{
    let b = a.push(v);
    if i < a.len() {
        assert(b[i] == a[i]);
        let next = visited(a[i], list_path(path, i), s, min);
        lemma_items_first(a, v, path, next, min, i + 1);
    } else {
        lemma_stays_list(b, path, s, min, i);
    }
}

/// A part is told with the place where it stands first: another entry or another
/// item behind the others changes no place and no value that was told, and takes
/// nothing away.
pub proof fn what_comes_later_changes_no_place(
    o: Entries,
    e: (Text, Val),
    a: Seq<Val>,
    v: Val,
    path: Text,
    min: nat,
)
    ensures
        stays(
            collected(Val::Object(o), path, seq![], min),
            collected(Val::Object(o.push(e)), path, seq![], min),
        ),
        stays(
            collected(Val::Array(a), path, seq![], min),
            collected(Val::Array(a.push(v)), path, seq![], min),
        ),
{
    lemma_entries_first(o, e, path, seq![], min, 0);
    lemma_items_first(a, v, path, seq![], min, 0);
}

// ---------------------------------------------------------------------------
// Places

/// What a step leads to.
pub open spec fn stepped(v: Val, st: Step) -> Option<Val> {
    match (v, st) {
        (Val::Object(o), Step::Field(k)) => entry(o, k),
        (Val::Array(a), Step::Item(n)) => if 0 <= n < a.len() {
            Some(a[n])
        } else {
            None
        },
        _ => None,
    }
}

/// How the place that steps lead to is written, from `base` on: keys behind dots,
/// and positions in brackets.
pub open spec fn place_text(base: Text, p: Seq<Step>) -> Text
    decreases p.len(),
{
    if p.len() == 0 {
        base
    } else {
        let w = place_text(base, p.drop_last());
        match p.last() {
            Step::Field(k) => if w.len() == 0 {
                k
            } else {
                w + seq!['.'] + k
            },
            Step::Item(n) => if p.len() == 1 && w.len() == 0 {
                seq!['['] + integer_text(n) + seq![']']
            } else {
                w + seq!['.', '['] + integer_text(n) + seq![']']
            },
        }
    }
}

/// One step more.
proof fn lemma_stepped(v: Val, p: Seq<Step>, st: Step, i: int)
    requires
        0 <= i <= p.len(),
    ensures
        at_steps(v, p.push(st), i) == (match at_steps(v, p, i) {
            Some(c) => stepped(c, st),
            None => None,
        }),
    decreases p.len() - i,
{
    reveal_with_fuel(at_steps, 2);
    let q = p.push(st);
    if i < p.len() {
        assert(q[i] == p[i]);
        match (v, p[i]) {
            (Val::Object(o), Step::Field(k)) => {
                if entry(o, k) is Some {
                    lemma_stepped(entry(o, k)->0, p, st, i + 1);
                }
            },
            (Val::Array(a), Step::Item(n)) => {
                if 0 <= n < a.len() {
                    lemma_stepped(a[n], p, st, i + 1);
                }
            },
            _ => {},
        }
    } else {
        assert(q[i] == st);
    }
}

/// Whether a tally is of an object in `v` with at least `min` entries, under its
/// digest and with its place.
pub open spec fn is_of_a_place(v: Val, base: Text, min: nat, e: (Text, Tally)) -> bool {
    exists|p: Seq<Step>|
        {
            &&& #[trigger] at_steps(v, p, 0) == Some(e.1.data)
            &&& p.len() > 0
            &&& e.1.path == place_text(base, p)
            &&& e.1.data matches Val::Object(o) && o.len() > 0 && o.len() >= min
            &&& e.0 == root_digest(e.1.data)
        }
}

/// Whether the tallies of `t` behind those of `s` are of places in `v`.
pub open spec fn are_placed(v: Val, base: Text, min: nat, s: Tallies, t: Tallies) -> bool {
    forall|i: int| s.len() <= i < t.len() ==> is_of_a_place(v, base, min, #[trigger] t[i])
}

/// Placed tallies behind placed ones.
proof fn lemma_placed_both(v: Val, base: Text, min: nat, s: Tallies, t: Tallies, u: Tallies)
    requires
        are_placed(v, base, min, s, t),
        are_placed(v, base, min, t, u),
        stays(s, t),
        stays(t, u),
    ensures
        are_placed(v, base, min, s, u),
{
    assert forall|i: int| s.len() <= i < u.len() implies is_of_a_place(
        v,
        base,
        min,
        #[trigger] u[i],
    ) by {
        if i < t.len() {
            let e = t[i];
            assert(is_of_a_place(v, base, min, e));
            assert(u[i].0 == e.0);
            let p = choose|p: Seq<Step>|
                {
                    &&& #[trigger] at_steps(v, p, 0) == Some(e.1.data)
                    &&& p.len() > 0
                    &&& e.1.path == place_text(base, p)
                    &&& e.1.data matches Val::Object(o) && o.len() > 0 && o.len() >= min
                    &&& e.0 == root_digest(e.1.data)
                };
            assert(at_steps(v, p, 0) == Some(u[i].1.data));
        }
    }
}

/// The place below a key.
proof fn lemma_field_place(base: Text, p: Seq<Step>, k: Text)
    ensures
        place_text(base, p.push(Step::Field(k))) == below(place_text(base, p), k),
{
    reveal_strlit(".");
    assert("."@ =~= seq!['.']);
    assert(p.push(Step::Field(k)).drop_last() =~= p);
}

/// The place of an item.
proof fn lemma_item_place(base: Text, p: Seq<Step>, n: int)
    ensures
        p.len() > 0 ==> place_text(base, p.push(Step::Item(n))) == item_path(
            place_text(base, p),
            n,
        ),
        p.len() == 0 ==> place_text(base, p.push(Step::Item(n))) == list_path(base, n),
{
    reveal_strlit(".[");
    reveal_strlit("[");
    reveal_strlit("]");
    assert(".["@ =~= seq!['.', '[']);
    assert("["@ =~= seq!['[']);
    assert("]"@ =~= seq![']']);
    assert(p.push(Step::Item(n)).drop_last() =~= p);
}

/// An object and its parts counted.
proof fn lemma_placed_own(
    v: Val,
    base: Text,
    min: nat,
    c: Val,
    p: Seq<Step>,
    s: Tallies,
)
    requires
        well_keyed(c),
        p.len() > 0,
        at_steps(v, p, 0) == Some(c),
    ensures
        are_placed(v, base, min, s, visited(c, place_text(base, p), s, min)),
    decreases c, 1int,
{
    if let Val::Object(o) = c {
        let path = place_text(base, p);
        assert(decreases_to!(c => o));
        if o.len() > 0 && o.len() >= min {
            let t = registered(s, c, path);
            lemma_stays_one(s, c, path);
            lemma_stays_parts(c, path, t, min);
            assert forall|i: int| s.len() <= i < t.len() implies is_of_a_place(
                v,
                base,
                min,
                #[trigger] t[i],
            ) by {
                assert(t[i].1.data == c);
                assert(at_steps(v, p, 0) == Some(t[i].1.data));
            }
            lemma_placed_entries(v, base, min, o, p, t, 0);
            lemma_placed_both(v, base, min, s, t, collected(c, path, t, min));
        } else if o.len() > 0 {
            lemma_placed_entries(v, base, min, o, p, s, 0);
        }
    }
}

/// The parts of the entries from `i` on counted.
#[verifier::rlimit(40)]
proof fn lemma_placed_entries(
    v: Val,
    base: Text,
    min: nat,
    o: Entries,
    p: Seq<Step>,
    s: Tallies,
    i: int,
)
    requires
        0 <= i <= o.len(),
        well_keyed(Val::Object(o)),
        at_steps(v, p, 0) == Some(Val::Object(o)),
    ensures
        are_placed(v, base, min, s, collected_entries(o, place_text(base, p), s, min, i)),
    decreases o, o.len() - i,
{
    if i < o.len() {
        let path = place_text(base, p);
        let (k, c) = o[i];
        let q = p.push(Step::Field(k));
        lemma_entry_smaller(o, i);
        lemma_entry_found(o, i);
        lemma_stepped(v, p, Step::Field(k), 0);
        lemma_field_place(base, p, k);
        lemma_entry_keyed(o, 0, i);
        let next = counted_below(c, below(path, k), s, min);
        lemma_stays_below(c, below(path, k), s, min);
        match c {
            Val::Array(a) => {
                assert(decreases_to!(c => a));
                lemma_placed_items(v, base, min, a, q, s, 0);
            },
            _ => {
                lemma_placed_own(v, base, min, c, q, s);
            },
        }
        lemma_placed_entries(v, base, min, o, p, next, i + 1);
        lemma_stays_entries(o, path, next, min, i + 1);
        lemma_placed_both(
            v,
            base,
            min,
            s,
            next,
            collected_entries(o, path, next, min, i + 1),
        );
    }
}

/// The parts of the items of a list under a key counted.
proof fn lemma_placed_items(
    v: Val,
    base: Text,
    min: nat,
    a: Seq<Val>,
    p: Seq<Step>,
    s: Tallies,
    i: int,
)
    requires
        0 <= i <= a.len(),
        p.len() > 0,
        well_keyed(Val::Array(a)),
        at_steps(v, p, 0) == Some(Val::Array(a)),
    ensures
        are_placed(v, base, min, s, collected_items(a, place_text(base, p), s, min, i)),
    decreases a, a.len() - i,
{
    if i < a.len() {
        let path = place_text(base, p);
        let q = p.push(Step::Item(i));
        lemma_item_smaller(a, i);
        lemma_stepped(v, p, Step::Item(i), 0);
        lemma_item_place(base, p, i);
        lemma_item_keyed(a, 0, i);
        let next = visited(a[i], item_path(path, i), s, min);
        lemma_stays_own(a[i], item_path(path, i), s, min);
        lemma_placed_own(v, base, min, a[i], q, s);
        lemma_placed_items(v, base, min, a, p, next, i + 1);
        lemma_stays_items(a, path, next, min, i + 1);
        lemma_placed_both(v, base, min, s, next, collected_items(a, path, next, min, i + 1));
    }
}

/// The parts of the items of a list counted.
proof fn lemma_placed_list(base: Text, min: nat, a: Seq<Val>, s: Tallies, i: int)
    requires
        0 <= i <= a.len(),
        well_keyed(Val::Array(a)),
    ensures
        are_placed(Val::Array(a), base, min, s, collected_list(a, base, s, min, i)),
    decreases a.len() - i,
{
    if i < a.len() {
        let v = Val::Array(a);
        let p = Seq::<Step>::empty();
        let q = p.push(Step::Item(i));
        lemma_stepped(v, p, Step::Item(i), 0);
        lemma_item_place(base, p, i);
        lemma_item_keyed(a, 0, i);
        let next = visited(a[i], list_path(base, i), s, min);
        lemma_stays_own(a[i], list_path(base, i), s, min);
        lemma_placed_own(v, base, min, a[i], q, s);
        lemma_placed_list(base, min, a, next, i + 1);
        lemma_stays_list(a, base, next, min, i + 1);
        lemma_placed_both(v, base, min, s, next, collected_list(a, base, next, min, i + 1));
    }
}

/// Each tally is of an object inside the value that has at least the number of
/// entries that was asked for, under the digest of that object, and its path is
/// written from the keys and positions that lead there.
pub proof fn a_tally_tells_a_place(v: Val, base: Text, min: nat)
    requires
        well_keyed(v),
    ensures
        forall|i: int|
            0 <= i < collected(v, base, seq![], min).len() ==> is_of_a_place(
                v,
                base,
                min,
                #[trigger] collected(v, base, seq![], min)[i],
            ),
{
    let none: Tallies = seq![];
    match v {
        Val::Object(o) => {
            let p = Seq::<Step>::empty();
            assert(at_steps(v, p, 0) == Some(v));
            assert(place_text(base, p) == base);
            lemma_placed_entries(v, base, min, o, p, none, 0);
        },
        Val::Array(a) => {
            lemma_placed_list(base, min, a, none, 0);
        },
        _ => {},
    }
}
// ---------------------------------------------------------------------------
// No part is passed over

/// Whether the steps from the `i`-th on lead to an object with at least `min`
/// entries that has the digest `h`.
pub open spec fn leads_to(v: Val, p: Seq<Step>, i: int, min: nat, h: Text) -> bool {
    at_steps(v, p, i) matches Some(Val::Object(o)) && o.len() > 0 && o.len() >= min && root_digest(
        Val::Object(o),
    ) == h
}

/// An object and its parts counted.
proof fn lemma_told_own(v: Val, path: Text, s: Tallies, min: nat, p: Seq<Step>, i: int, h: Text)
    requires
        0 < i <= p.len(),
        is_walk(p),
        leads_to(v, p, i, min, h),
        i < p.len() ==> p[i] is Field,
    ensures
        has_key(visited(v, path, s, min), h),
    decreases p.len() - i, 1int, 0int,
{
    if let Val::Object(o) = v {
        let t = if o.len() >= min {
            registered(s, v, path)
        } else {
            s
        };
        lemma_stays_one(s, v, path);
        if i < p.len() {
            let k = p[i]->Field_0;
            lemma_key_index(o, k);
            lemma_told_entries(o, path, t, min, 0, key_index(o, k), p, i, h);
        } else {
            lemma_stays_parts(v, path, t, min);
            lemma_has_stays(t, collected(v, path, t, min), h);
        }
    }
}

/// What stands under a key counted.
proof fn lemma_told_below(c: Val, path: Text, s: Tallies, min: nat, p: Seq<Step>, i: int, h: Text)
    requires
        0 < i <= p.len(),
        is_walk(p),
        leads_to(c, p, i, min, h),
    ensures
        has_key(counted_below(c, path, s, min), h),
    decreases p.len() - i, 2int, 0int,
{
    match c {
        Val::Array(a) => {
            assert(i < p.len());
            let n = p[i]->Item_0;
            assert(p[i] is Item);
            lemma_told_items(a, path, s, min, 0, n, p, i, h);
        },
        _ => {
            lemma_told_own(c, path, s, min, p, i, h);
        },
    }
}

/// The parts of the entries from `m` on counted.
proof fn lemma_told_entries(
    o: Entries,
    path: Text,
    s: Tallies,
    min: nat,
    m: int,
    j: int,
    p: Seq<Step>,
    i: int,
    h: Text,
)
    requires
        0 <= m <= j < o.len(),
        0 <= i < p.len(),
        is_walk(p),
        leads_to(o[j].1, p, i + 1, min, h),
    ensures
        has_key(collected_entries(o, path, s, min, m), h),
    decreases p.len() - i, 0int, j - m,
{
    let next = counted_below(o[m].1, below(path, o[m].0), s, min);
    if m < j {
        lemma_told_entries(o, path, next, min, m + 1, j, p, i, h);
    } else {
        lemma_told_below(o[j].1, below(path, o[j].0), s, min, p, i + 1, h);
        lemma_stays_entries(o, path, next, min, m + 1);
        lemma_has_stays(next, collected_entries(o, path, next, min, m + 1), h);
    }
}

/// The parts of the items of a list under a key counted.
proof fn lemma_told_items(
    a: Seq<Val>,
    path: Text,
    s: Tallies,
    min: nat,
    m: int,
    j: int,
    p: Seq<Step>,
    i: int,
    h: Text,
)
    requires
        0 <= m <= j < a.len(),
        0 <= i < p.len(),
        p[i] is Item,
        is_walk(p),
        leads_to(a[j], p, i + 1, min, h),
    ensures
        has_key(collected_items(a, path, s, min, m), h),
    decreases p.len() - i, 0int, j - m,
{
    let next = visited(a[m], item_path(path, m), s, min);
    if m < j {
        lemma_told_items(a, path, next, min, m + 1, j, p, i, h);
    } else {
        lemma_told_own(a[j], item_path(path, j), s, min, p, i + 1, h);
        lemma_stays_items(a, path, next, min, m + 1);
        lemma_has_stays(next, collected_items(a, path, next, min, m + 1), h);
    }
}

/// The parts of the items of a list counted.
proof fn lemma_told_list(
    a: Seq<Val>,
    path: Text,
    s: Tallies,
    min: nat,
    m: int,
    p: Seq<Step>,
    h: Text,
)
    requires
        p.len() > 0,
        p[0] is Item,
        0 <= m <= p[0]->Item_0 < a.len(),
        is_walk(p),
        leads_to(a[p[0]->Item_0], p, 1, min, h),
    ensures
        has_key(collected_list(a, path, s, min, m), h),
    decreases p[0]->Item_0 - m,
{
    let next = visited(a[m], list_path(path, m), s, min);
    if m < p[0]->Item_0 {
        lemma_told_list(a, path, next, min, m + 1, p, h);
    } else {
        lemma_told_own(a[m], list_path(path, m), s, min, p, 1, h);
        lemma_stays_list(a, path, next, min, m + 1);
        lemma_has_stays(next, collected_list(a, path, next, min, m + 1), h);
    }
}

/// No part is passed over: each object inside a value with at least the number of
/// entries that was asked for has a tally under its digest, wherever keys and
/// positions, no two positions in a row, lead to it.
pub proof fn each_part_has_a_tally(v: Val, path: Text, min: nat, p: Seq<Step>, h: Text)
    requires
        p.len() > 0,
        is_walk(p),
        leads_to(v, p, 0, min, h),
    ensures
        has_key(collected(v, path, seq![], min), h),
{
    match v {
        Val::Object(o) => {
            let k = p[0]->Field_0;
            lemma_key_index(o, k);
            lemma_told_entries(o, path, seq![], min, 0, key_index(o, k), p, 0, h);
        },
        Val::Array(a) => {
            lemma_told_list(a, path, seq![], min, 0, p, h);
        },
        _ => {},
    }
}

} // verus!
