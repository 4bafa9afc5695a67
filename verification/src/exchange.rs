//! Values to and from JSON, part by part.

use vstd::prelude::*;
use crate::json::{
    entries_no_decimals, from_json, from_json_entries, from_json_items, holds_no_decimals, in_order,
    is_among, items_no_decimals, lemma_in_order, lemma_json_entries, lemma_json_items, put_in_order,
    to_json, to_json_entries,
};
use crate::order::{inserted, lemma_place, place, sorted};
use crate::text::Text;
use crate::value::{
    distinct, entry, has_key, key_index, keys, lemma_entry_smaller, lemma_item_smaller,
    lemma_key_index, put, Entries, Val,
};

verus! {

// ---------------------------------------------------------------------------
// From JSON

/// The items from some position on.
proof fn lemma_items_read(a: Seq<Val>, i: int, done: Seq<Val>)
    requires
        0 <= i <= a.len(),
        done.len() == i,
        forall|j: int| 0 <= j < i ==> #[trigger] done[j] == from_json(a[j]),
    ensures
        from_json_items(a, i, done) == Seq::new(a.len(), |j: int| from_json(a[j])),
    decreases a.len() - i,
{
    if i < a.len() {
        lemma_items_read(a, i + 1, done.push(from_json(a[i])));
    } else {
        assert(done =~= Seq::new(a.len(), |j: int| from_json(a[j])));
    }
}

/// The entries from some position on.
proof fn lemma_entries_read(o: Entries, i: int, done: Entries)
    requires
        distinct(o),
        0 <= i <= o.len(),
        done.len() == i,
        forall|j: int| 0 <= j < i ==> #[trigger] done[j] == (o[j].0, from_json(o[j].1)),
    ensures
        from_json_entries(o, i, done) == Seq::new(
            o.len(),
            |j: int| (o[j].0, from_json(o[j].1)),
        ),
    decreases o.len() - i,
{
    if i < o.len() {
        lemma_key_index(done, o[i].0);
        if has_key(done, o[i].0) {
            let j = key_index(done, o[i].0);
            assert(done[j].0 == o[j].0);
        }
        let next = put(done, o[i].0, from_json(o[i].1));
        assert(next =~= done.push((o[i].0, from_json(o[i].1))));
        lemma_entries_read(o, i + 1, next);
    } else {
        assert(done =~= Seq::new(o.len(), |j: int| (o[j].0, from_json(o[j].1))));
    }
}

/// A JSON array is read item by item, and a JSON object entry by entry, each in
/// its order; what is no number stays as it is, and so does an integer.
pub proof fn json_is_read_part_by_part(a: Seq<Val>, o: Entries, v: Val)
    requires
        distinct(o),
        v is Null || v is Bool || v is Integer || v is Str,
    ensures
        from_json(Val::Array(a)) == Val::Array(Seq::new(a.len(), |i: int| from_json(a[i]))),
        from_json(Val::Object(o)) == Val::Object(
            Seq::new(o.len(), |i: int| (o[i].0, from_json(o[i].1))),
        ),
        from_json(v) == v,
{
    lemma_items_read(a, 0, seq![]);
    lemma_entries_read(o, 0, seq![]);
}

/// A JSON value without numbers but integers stays as it is.
pub proof fn json_without_decimals_stays(v: Val)
    requires
        holds_no_decimals(v),
    ensures
        from_json(v) == v,
    decreases v, 0int,
{
    match v {
        Val::Array(a) => {
            assert(decreases_to!(v => a));
            lemma_items_read(a, 0, seq![]);
            assert forall|i: int| 0 <= i < a.len() implies from_json(#[trigger] a[i]) == a[i] by {
                lemma_items_stay(a, 0, i);
            }
            assert(Seq::new(a.len(), |j: int| from_json(a[j])) =~= a);
        },
        Val::Object(o) => {
            assert(decreases_to!(v => o));
            lemma_entries_read(o, 0, seq![]);
            assert forall|i: int| 0 <= i < o.len() implies from_json((#[trigger] o[i]).1)
                == o[i].1 by {
                lemma_entries_stay(o, 0, i);
            }
            assert(Seq::new(o.len(), |j: int| (o[j].0, from_json(o[j].1))) =~= o);
        },
        _ => {},
    }
}

/// An item without decimals stays as it is.
proof fn lemma_items_stay(a: Seq<Val>, i: int, k: int)
    requires
        items_no_decimals(a, i),
        0 <= i <= k < a.len(),
    ensures
        from_json(a[k]) == a[k],
    decreases a, k - i,
{
    if i < k {
        lemma_items_stay(a, i + 1, k);
    } else {
        lemma_item_smaller(a, i);
        json_without_decimals_stays(a[i]);
    }
}

/// An entry without decimals stays as it is.
proof fn lemma_entries_stay(o: Entries, i: int, k: int)
    requires
        entries_no_decimals(o, i),
        0 <= i <= k < o.len(),
    ensures
        from_json(o[k].1) == o[k].1,
    decreases o, k - i,
{
    if i < k {
        lemma_entries_stay(o, i + 1, k);
    } else {
        lemma_entry_smaller(o, i);
        json_without_decimals_stays(o[i].1);
    }
}

// ---------------------------------------------------------------------------
// To JSON

/// The keys of entries that are put in order.
#[verifier::rlimit(40)]
proof fn lemma_keys_in_order(s: Entries, i: int, done: Entries)
    requires
        0 <= i <= s.len(),
        distinct(s),
        keys(done) == sorted(keys(s).subrange(0, i)),
        forall|q: int| 0 <= q < done.len() ==> is_among(#[trigger] done[q], s, i),
    ensures
        keys(in_order(s, i, done)) == sorted(keys(s)),
    decreases s.len() - i,
{
    let all = keys(s);
    if i < s.len() {
        let k = s[i].0;
        let front = all.subrange(0, i + 1);
        assert(front.drop_last() =~= all.subrange(0, i));
        assert(front.last() == k);
        lemma_key_index(done, k);
        if has_key(done, k) {
            let q = key_index(done, k);
            assert(is_among(done[q], s, i));
            let p = choose|p: int| 0 <= p < i && #[trigger] s[p] == done[q];
            assert(s[p].0 == s[i].0);
        }
        let at = place(keys(done), k, 0);
        lemma_place(keys(done), k, 0);
        let next = put_in_order(done, k, s[i].1);
        assert(next == done.insert(at, (k, s[i].1)));
        assert(keys(next) =~= inserted(keys(done), k));
        assert forall|q: int| 0 <= q < next.len() implies is_among(#[trigger] next[q], s, i + 1) by {
            if q == at {
                assert(s[i] == next[q]);
            } else {
                let r = if q < at {
                    q
                } else {
                    q - 1
                };
                assert(next[q] == done[r]);
                assert(is_among(done[r], s, i));
                let p = choose|p: int| 0 <= p < i && #[trigger] s[p] == done[r];
                assert(s[p] == next[q]);
            }
        }
        lemma_keys_in_order(s, i + 1, next);
    } else {
        assert(all.subrange(0, i) =~= all);
    }
}

/// An array becomes a JSON array item by item, and an object a JSON object with
/// its keys in order and the JSON value of each entry under its key; what is no
/// number stays as it is, and so does an integer.
pub proof fn json_is_made_part_by_part(a: Seq<Val>, o: Entries, v: Val)
    requires
        distinct(o),
        v is Null || v is Bool || v is Integer || v is Str,
    ensures
        to_json(Val::Array(a)) == Val::Array(Seq::new(a.len(), |i: int| to_json(a[i]))),
        to_json(Val::Object(o)) matches Val::Object(p) && {
            &&& keys(p) == sorted(keys(o))
            &&& forall|j: int|
                0 <= j < p.len() ==> exists|i: int|
                    0 <= i < o.len() && (#[trigger] o[i]).0 == (#[trigger] p[j]).0 && p[j].1
                        == to_json(o[i].1)
        },
        to_json(v) == v,
{
    lemma_json_items(a, 0, seq![]);
    let b = to_json(Val::Array(a))->Array_0;
    assert(b =~= Seq::new(a.len(), |i: int| to_json(a[i])));
    let s = to_json_entries(o, 0, seq![]);
    lemma_json_entries(o, 0, seq![]);
    assert forall|i: int, j: int| 0 <= i < j < s.len() implies s[i].0 != s[j].0 by {
        assert(o[i].0 != o[j].0);
    }
    let none = Seq::<(Text, Val)>::empty();
    assert(keys(none) =~= sorted(keys(s).subrange(0, 0)));
    lemma_keys_in_order(s, 0, none);
    lemma_in_order(s, 0, none);
    assert(keys(s) =~= keys(o));
    let p = in_order(s, 0, none);
    assert forall|j: int| 0 <= j < p.len() implies exists|i: int|
        0 <= i < o.len() && (#[trigger] o[i]).0 == (#[trigger] p[j]).0 && p[j].1 == to_json(o[i].1) by {
        assert(is_among(p[j], s, s.len() as int));
        let i = choose|i: int| 0 <= i < s.len() && #[trigger] s[i] == p[j];
        assert(o[i].0 == p[j].0);
    }
}

} // verus!
