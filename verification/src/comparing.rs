//! What hashes and differences tell of values.

use vstd::multiset::Multiset;
use vstd::prelude::*;
use vstd::seq_lib::lemma_multiset_commutative;
use crate::json::{entries_no_decimals, holds_no_decimals, items_no_decimals};
use crate::number::decimal_of;
use crate::order::{sorted, sorting_ignores_order};
use crate::text::Text;
use crate::treehash::{
    below, collected, differences, either_keys, entry_prints, fingerprint, hash_of, item_prints,
    key_differences, key_sorted, key_sorted_entries, key_sorted_items, root_digest, same, Change,
    Difference,
};
use crate::value::{
    distinct, entries_in, entries_well_keyed, entry, equality_goes_both_ways, has_key, items_eq,
    items_well_keyed, key_index, keys, lemma_entry_found, lemma_entry_in, lemma_entry_keyed,
    lemma_entry_smaller, lemma_item_smaller, lemma_key_index, put, val_eq, well_keyed, Entries, Val,
};

verus! {

// ---------------------------------------------------------------------------
// Values without irregularities

/// Whether a text stands for a zero with a minus before it. It equals zero
/// without one, and is written otherwise.
pub open spec fn is_negative_zero(t: Text) -> bool {
    decimal_of(t) matches Some(d) && d.neg && d.digits.len() == 0
}

/// Whether no object in `v` has a key twice, and no zero has a minus.
pub open spec fn is_regular(v: Val) -> bool
    decreases v, 0int,
{
    match v {
        Val::Float(t) => !is_negative_zero(t),
        Val::Array(a) => items_regular(a, 0),
        Val::Object(o) => distinct(o) && entries_regular(o, 0),
        _ => true,
    }
}

/// Whether the items from `i` on are regular.
pub open spec fn items_regular(a: Seq<Val>, i: int) -> bool
    decreases a, a.len() - i,
{
    if 0 <= i < a.len() {
        is_regular(a[i]) && items_regular(a, i + 1)
    } else {
        true
    }
}

/// Whether the entries from `i` on are regular.
pub open spec fn entries_regular(o: Entries, i: int) -> bool
    decreases o, o.len() - i,
{
    if 0 <= i < o.len() {
        is_regular(o[i].1) && entries_regular(o, i + 1)
    } else {
        true
    }
}

/// No object in a regular value has a key twice.
proof fn lemma_regular_keyed(v: Val)
    requires
        is_regular(v),
    ensures
        well_keyed(v),
    decreases v, 0int,
{
    match v {
        Val::Array(a) => {
            assert(decreases_to!(v => a));
            lemma_items_keyed(a, 0);
        },
        Val::Object(o) => {
            assert(decreases_to!(v => o));
            lemma_entries_keyed(o, 0);
        },
        _ => {},
    }
}

/// No object in regular items has a key twice.
proof fn lemma_items_keyed(a: Seq<Val>, i: int)
    requires
        0 <= i <= a.len(),
        items_regular(a, i),
    ensures
        items_well_keyed(a, i),
    decreases a, a.len() - i,
{
    if i < a.len() {
        lemma_item_smaller(a, i);
        assert(is_regular(a[i]));
        lemma_regular_keyed(a[i]);
        lemma_items_keyed(a, i + 1);
    }
}

/// No object in regular entries has a key twice.
proof fn lemma_entries_keyed(o: Entries, i: int)
    requires
        0 <= i <= o.len(),
        entries_regular(o, i),
    ensures
        entries_well_keyed(o, i),
    decreases o, o.len() - i,
{
    if i < o.len() {
        lemma_entry_smaller(o, i);
        assert(is_regular(o[i].1));
        lemma_regular_keyed(o[i].1);
        lemma_entries_keyed(o, i + 1);
    }
}

/// An entry among regular entries.
proof fn lemma_entry_regular(o: Entries, i: int, k: int)
    requires
        entries_regular(o, i),
        0 <= i <= k < o.len(),
    ensures
        is_regular(o[k].1),
    decreases k - i,
{
    if i < k {
        lemma_entry_regular(o, i + 1, k);
    }
}

// ---------------------------------------------------------------------------
// Keys

/// The keys of entries, of which no two are the same.
proof fn lemma_keys(o: Entries)
    requires
        distinct(o),
    ensures
        keys(o).no_duplicates(),
        forall|k: Text| #[trigger] keys(o).contains(k) == has_key(o, k),
{
    let ks = keys(o);
    assert forall|i: int, j: int| 0 <= i < ks.len() && 0 <= j < ks.len() && i != j implies ks[i]
        != ks[j] by {
        if i < j {
            assert(o[i].0 != o[j].0);
        } else {
            assert(o[j].0 != o[i].0);
        }
    }
    assert forall|k: Text| #[trigger] ks.contains(k) == has_key(o, k) by {
        lemma_key_index(o, k);
        if ks.contains(k) {
            let i = choose|i: int| 0 <= i < ks.len() && ks[i] == k;
            lemma_entry_found(o, i);
        }
        if has_key(o, k) {
            assert(ks[key_index(o, k)] == k);
        }
    }
}

/// Texts of which no two are the same, and which are the same in both, are as
/// often in both.
proof fn lemma_same_texts(s: Seq<Text>, t: Seq<Text>)
    requires
        s.no_duplicates(),
        t.no_duplicates(),
        forall|k: Text| #[trigger] s.contains(k) == t.contains(k),
    ensures
        s.to_multiset() == t.to_multiset(),
{
    broadcast use vstd::seq_lib::group_to_multiset_ensures;

    s.lemma_multiset_has_no_duplicates();
    t.lemma_multiset_has_no_duplicates();
    assert forall|k: Text| #[trigger] s.to_multiset().count(k) == t.to_multiset().count(k) by {
        assert(s.contains(k) == t.contains(k));
        assert(s.to_multiset().contains(k) ==> s.to_multiset().count(k) == 1);
        assert(t.to_multiset().contains(k) ==> t.to_multiset().count(k) == 1);
    }
    assert(s.to_multiset() =~= t.to_multiset());
}

/// Whether the same keys stand in both, and what is under them has the same
/// fingerprint.
pub open spec fn prints_agree(x: Entries, y: Entries) -> bool {
    forall|k: Text|
        #![trigger has_key(x, k)]
        #![trigger has_key(y, k)]
        has_key(x, k) == has_key(y, k) && (has_key(x, k) ==> fingerprint(
            x[key_index(x, k)].1,
        ) == fingerprint(y[key_index(y, k)].1))
}

/// Entries under the same keys with the same fingerprints print the same.
proof fn lemma_prints_agree(x: Entries, y: Entries, ks: Seq<Text>, i: int)
    requires
        prints_agree(x, y),
    ensures
        entry_prints(x, ks, i) == entry_prints(y, ks, i),
    decreases ks.len() - i,
{
    if 0 <= i < ks.len() {
        assert(has_key(x, ks[i]) == has_key(y, ks[i]));
        lemma_prints_agree(x, y, ks, i + 1);
    }
}

/// The same keys in both are the same once they are sorted.
proof fn lemma_keys_agree(x: Entries, y: Entries)
    requires
        distinct(x),
        distinct(y),
        forall|k: Text| #[trigger] has_key(x, k) == has_key(y, k),
    ensures
        sorted(keys(x)) == sorted(keys(y)),
        x.len() == y.len(),
        keys(x).to_multiset() == keys(y).to_multiset(),
{
    broadcast use vstd::seq_lib::group_to_multiset_ensures;

    lemma_keys(x);
    lemma_keys(y);
    assert forall|k: Text| #[trigger] keys(x).contains(k) == keys(y).contains(k) by {
        assert(has_key(x, k) == has_key(y, k));
    }
    lemma_same_texts(keys(x), keys(y));
    sorting_ignores_order(keys(x), keys(y));
    assert(keys(x).len() == keys(x).to_multiset().len());
    assert(keys(y).len() == keys(y).to_multiset().len());
}

/// Objects whose entries agree have the same fingerprint.
proof fn lemma_object_print(x: Entries, y: Entries)
    requires
        distinct(x),
        distinct(y),
        prints_agree(x, y),
    ensures
        fingerprint(Val::Object(x)) == fingerprint(Val::Object(y)),
{
    assert forall|k: Text| #[trigger] has_key(x, k) == has_key(y, k) by {}
    lemma_keys_agree(x, y);
    lemma_prints_agree(x, y, sorted(keys(x)), 0);
}

// ---------------------------------------------------------------------------
// Equal values

/// Regular values that are equal have the same fingerprint.
proof fn lemma_equal(a: Val, b: Val)
    requires
        val_eq(a, b),
        is_regular(a),
        is_regular(b),
    ensures
        fingerprint(a) == fingerprint(b),
    decreases a, 0int,
{
    match (a, b) {
        (Val::Array(x), Val::Array(y)) => {
            assert(decreases_to!(a => x));
            lemma_equal_items(x, y, 0);
        },
        (Val::Object(x), Val::Object(y)) => {
            assert(decreases_to!(a => x));
            lemma_regular_keyed(a);
            lemma_regular_keyed(b);
            equality_goes_both_ways(a, b);
            lemma_equal_entries(x, y);
        },
        _ => {},
    }
}

/// Regular items that are equal print the same.
proof fn lemma_equal_items(x: Seq<Val>, y: Seq<Val>, i: int)
    requires
        x.len() == y.len(),
        0 <= i <= x.len(),
        items_eq(x, y, i),
        items_regular(x, i),
        items_regular(y, i),
    ensures
        item_prints(x, i) == item_prints(y, i),
    decreases x, x.len() - i,
{
    if i < x.len() {
        lemma_item_smaller(x, i);
        assert(is_regular(x[i]));
        assert(is_regular(y[i]));
        lemma_equal(x[i], y[i]);
        lemma_equal_items(x, y, i + 1);
    }
}

/// Regular objects that are equal have the same fingerprint.
proof fn lemma_equal_entries(x: Entries, y: Entries)
    requires
        distinct(x),
        distinct(y),
        entries_in(x, y, 0),
        entries_in(y, x, 0),
        entries_regular(x, 0),
        entries_regular(y, 0),
    ensures
        fingerprint(Val::Object(x)) == fingerprint(Val::Object(y)),
    decreases x, x.len() + 1,
{
    assert forall|k: Text|
        #![trigger has_key(x, k)]
        #![trigger has_key(y, k)]
        has_key(x, k) == has_key(y, k) && (has_key(x, k) ==> fingerprint(x[key_index(x, k)].1)
            == fingerprint(y[key_index(y, k)].1)) by {
        lemma_key_index(x, k);
        lemma_key_index(y, k);
        if has_key(x, k) {
            let i = key_index(x, k);
            lemma_entry_in(x, y, 0, i);
            lemma_entry_regular(x, 0, i);
            lemma_entry_regular(y, 0, key_index(y, k));
            lemma_entry_smaller(x, i);
            lemma_equal(x[i].1, y[key_index(y, k)].1);
        }
        if has_key(y, k) {
            lemma_entry_in(y, x, 0, key_index(y, k));
        }
    }
    lemma_object_print(x, y);
}

/// Regular values that are equal have the same hash, in whatever order the
/// entries of the objects in them stand.
pub proof fn equal_values_have_one_hash(a: Val, b: Val)
    requires
        val_eq(a, b),
        is_regular(a),
        is_regular(b),
    ensures
        fingerprint(a) == fingerprint(b),
        hash_of(a) == hash_of(b),
{
    lemma_equal(a, b);
}

// ---------------------------------------------------------------------------
// The order of entries

/// Whether `b` is `a` with the entries of its objects, at any depth, in whatever
/// order. No object in them has a key twice.
pub open spec fn is_reordered(a: Val, b: Val) -> bool
    decreases a, 0int,
{
    match (a, b) {
        (Val::Array(x), Val::Array(y)) => x.len() == y.len() && items_reordered(x, y, 0),
        (Val::Object(x), Val::Object(y)) => {
            &&& distinct(x)
            &&& distinct(y)
            &&& forall|k: Text| #[trigger] has_key(x, k) == has_key(y, k)
            &&& entries_reordered(x, y, 0)
        },
        _ => a == b,
    }
}

/// Whether the items of `y` from `i` on are those of `x` reordered.
pub open spec fn items_reordered(x: Seq<Val>, y: Seq<Val>, i: int) -> bool
    decreases x, x.len() - i,
{
    if 0 <= i < x.len() {
        is_reordered(x[i], y[i]) && items_reordered(x, y, i + 1)
    } else {
        true
    }
}

/// Whether what `y` has under the keys of `x` from the `i`-th on is what `x` has
/// there, reordered.
pub open spec fn entries_reordered(x: Entries, y: Entries, i: int) -> bool
    decreases x, x.len() - i,
{
    if 0 <= i < x.len() {
        is_reordered(x[i].1, y[key_index(y, x[i].0)].1) && entries_reordered(x, y, i + 1)
    } else {
        true
    }
}

/// Under one of the keys.
proof fn lemma_entry_reordered(x: Entries, y: Entries, i: int, k: int)
    requires
        entries_reordered(x, y, i),
        0 <= i <= k < x.len(),
    ensures
        is_reordered(x[k].1, y[key_index(y, x[k].0)].1),
    decreases k - i,
{
    if i < k {
        lemma_entry_reordered(x, y, i + 1, k);
    }
}

/// A value and the same in another order have the same fingerprint, and are the
/// same once their keys are in order.
proof fn lemma_reordered(a: Val, b: Val)
    requires
        is_reordered(a, b),
    ensures
        fingerprint(a) == fingerprint(b),
        key_sorted(a) == key_sorted(b),
    decreases a, 0int,
{
    match (a, b) {
        (Val::Array(x), Val::Array(y)) => {
            assert(decreases_to!(a => x));
            lemma_reordered_items(x, y, 0, seq![]);
        },
        (Val::Object(x), Val::Object(y)) => {
            assert(decreases_to!(a => x));
            lemma_reordered_entries(x, y);
        },
        _ => {},
    }
}

/// Items and the same in another order.
proof fn lemma_reordered_items(x: Seq<Val>, y: Seq<Val>, i: int, done: Seq<Val>)
    requires
        x.len() == y.len(),
        0 <= i <= x.len(),
        items_reordered(x, y, i),
    ensures
        item_prints(x, i) == item_prints(y, i),
        key_sorted_items(x, i, done) == key_sorted_items(y, i, done),
    decreases x, x.len() - i,
{
    if i < x.len() {
        lemma_item_smaller(x, i);
        lemma_reordered(x[i], y[i]);
        lemma_reordered_items(x, y, i + 1, done.push(key_sorted(x[i])));
    }
}

/// Objects whose entries are the same, in whatever order.
proof fn lemma_reordered_entries(x: Entries, y: Entries)
    requires
        distinct(x),
        distinct(y),
        forall|k: Text| #[trigger] has_key(x, k) == has_key(y, k),
        entries_reordered(x, y, 0),
    ensures
        fingerprint(Val::Object(x)) == fingerprint(Val::Object(y)),
        key_sorted(Val::Object(x)) == key_sorted(Val::Object(y)),
    decreases x, x.len() + 1,
{
    assert forall|k: Text|
        #![trigger has_key(x, k)]
        #![trigger has_key(y, k)]
        has_key(x, k) == has_key(y, k) && (has_key(x, k) ==> fingerprint(x[key_index(x, k)].1)
            == fingerprint(y[key_index(y, k)].1) && key_sorted(x[key_index(x, k)].1) == key_sorted(
            y[key_index(y, k)].1,
        )) by {
        assert(has_key(x, k) == has_key(y, k));
        lemma_key_index(x, k);
        if has_key(x, k) {
            let i = key_index(x, k);
            lemma_entry_reordered(x, y, 0, i);
            lemma_entry_smaller(x, i);
            lemma_reordered(x[i].1, y[key_index(y, k)].1);
        }
    }
    lemma_object_print(x, y);
    lemma_keys_agree(x, y);
    lemma_sorted_agree(x, y, sorted(keys(x)), 0, seq![]);
}

/// Entries that are the same once their keys are in order are sorted to the
/// same.
proof fn lemma_sorted_agree(x: Entries, y: Entries, ks: Seq<Text>, i: int, done: Entries)
    requires
        forall|k: Text|
            #![trigger has_key(x, k)]
            #![trigger has_key(y, k)]
            has_key(x, k) == has_key(y, k) && (has_key(x, k) ==> key_sorted(x[key_index(x, k)].1)
                == key_sorted(y[key_index(y, k)].1)),
    ensures
        key_sorted_entries(x, ks, i, done) == key_sorted_entries(y, ks, i, done),
    decreases ks.len() - i,
{
    if 0 <= i < ks.len() {
        let k = ks[i];
        assert(has_key(x, k) == has_key(y, k));
        if has_key(x, k) {
            lemma_sorted_agree(x, y, ks, i + 1, put(done, k, key_sorted(x[key_index(x, k)].1)));
        } else {
            lemma_sorted_agree(x, y, ks, i + 1, done);
        }
    }
}

/// Equal values without decimals differ in the order of entries alone.
pub proof fn equal_values_are_reordered(a: Val, b: Val)
    requires
        val_eq(a, b),
        holds_no_decimals(a),
        holds_no_decimals(b),
    ensures
        is_reordered(a, b),
    decreases a, 0int,
{
    match (a, b) {
        (Val::Array(x), Val::Array(y)) => {
            assert(decreases_to!(a => x));
            lemma_items_reordered(x, y, 0);
        },
        (Val::Object(x), Val::Object(y)) => {
            assert(decreases_to!(a => x));
            values_without_decimals_are_regular(a);
            values_without_decimals_are_regular(b);
            lemma_regular_keyed(a);
            lemma_regular_keyed(b);
            equality_goes_both_ways(a, b);
            assert forall|k: Text| #[trigger] has_key(x, k) == has_key(y, k) by {
                lemma_key_index(x, k);
                lemma_key_index(y, k);
                if has_key(x, k) {
                    lemma_entry_in(x, y, 0, key_index(x, k));
                }
                if has_key(y, k) {
                    lemma_entry_in(y, x, 0, key_index(y, k));
                }
            }
            lemma_entries_reordered(x, y, 0);
        },
        _ => {},
    }
}

/// Equal items without decimals differ in the order of entries alone.
proof fn lemma_items_reordered(x: Seq<Val>, y: Seq<Val>, i: int)
    requires
        x.len() == y.len(),
        0 <= i <= x.len(),
        items_eq(x, y, i),
        items_no_decimals(x, i),
        items_no_decimals(y, i),
    ensures
        items_reordered(x, y, i),
    decreases x, x.len() - i,
{
    if i < x.len() {
        lemma_item_smaller(x, i);
        equal_values_are_reordered(x[i], y[i]);
        lemma_items_reordered(x, y, i + 1);
    }
}

/// Equal entries without decimals differ in the order of entries alone.
proof fn lemma_entries_reordered(x: Entries, y: Entries, i: int)
    requires
        0 <= i <= x.len(),
        entries_in(x, y, 0),
        entries_no_decimals(x, i),
        entries_no_decimals(y, 0),
    ensures
        entries_reordered(x, y, i),
    decreases x, x.len() - i,
{
    if i < x.len() {
        let k = key_index(y, x[i].0);
        lemma_key_index(y, x[i].0);
        lemma_entry_in(x, y, 0, i);
        lemma_entry_no_decimals(y, 0, k);
        lemma_entry_smaller(x, i);
        equal_values_are_reordered(x[i].1, y[k].1);
        lemma_entries_reordered(x, y, i + 1);
    }
}

/// An entry among entries without decimals.
proof fn lemma_entry_no_decimals(o: Entries, i: int, k: int)
    requires
        entries_no_decimals(o, i),
        0 <= i <= k < o.len(),
    ensures
        holds_no_decimals(o[k].1),
    decreases k - i,
{
    if i < k {
        lemma_entry_no_decimals(o, i + 1, k);
    }
}

/// A value without decimals is regular.
pub proof fn values_without_decimals_are_regular(v: Val)
    requires
        holds_no_decimals(v),
    ensures
        is_regular(v),
    decreases v, 0int,
{
    match v {
        Val::Array(a) => {
            assert(decreases_to!(v => a));
            lemma_items_whole(a, 0);
        },
        Val::Object(o) => {
            assert(decreases_to!(v => o));
            lemma_entries_whole(o, 0);
        },
        _ => {},
    }
}

/// Items without decimals are regular.
proof fn lemma_items_whole(a: Seq<Val>, i: int)
    requires
        0 <= i <= a.len(),
        items_no_decimals(a, i),
    ensures
        items_regular(a, i),
    decreases a, a.len() - i,
{
    if i < a.len() {
        lemma_item_smaller(a, i);
        values_without_decimals_are_regular(a[i]);
        lemma_items_whole(a, i + 1);
    }
}

/// Entries without decimals are regular.
proof fn lemma_entries_whole(o: Entries, i: int)
    requires
        0 <= i <= o.len(),
        entries_no_decimals(o, i),
    ensures
        entries_regular(o, i),
    decreases o, o.len() - i,
{
    if i < o.len() {
        lemma_entry_smaller(o, i);
        values_without_decimals_are_regular(o[i].1);
        lemma_entries_whole(o, i + 1);
    }
}

/// A fingerprint, and with it a hash, does not tell in which order the entries of
/// the objects in a value stand, at whatever depth.
pub proof fn fingerprint_ignores_order(a: Val, b: Val)
    requires
        is_reordered(a, b),
    ensures
        fingerprint(a) == fingerprint(b),
        hash_of(a) == hash_of(b),
        same(a, b),
{
    lemma_reordered(a, b);
}

/// Where the keys are put in order first, neither the hash of a tree nor its
/// parts tell in which order the entries of the objects in a value stood, at
/// whatever depth.
pub proof fn normalizing_ignores_order(a: Val, b: Val, path: Text, min: nat)
    requires
        is_reordered(a, b),
    ensures
        key_sorted(a) == key_sorted(b),
        root_digest(key_sorted(a)) == root_digest(key_sorted(b)),
        collected(key_sorted(a), path, seq![], min) == collected(
            key_sorted(b),
            path,
            seq![],
            min,
        ),
{
    lemma_reordered(a, b);
}

// ---------------------------------------------------------------------------
// Differences

/// The differences under one key.
pub open spec fn found(x: Entries, y: Entries, k: Text, path: Text) -> Seq<Difference> {
    let here = below(path, k);
    if has_key(x, k) {
        let v = x[key_index(x, k)].1;
        match entry(y, k) {
            Some(w) => differences(v, w, here),
            None => seq![Difference { path: here, change: Change::Removed(v) }],
        }
    } else {
        match entry(y, k) {
            Some(w) => seq![Difference { path: here, change: Change::Added(w) }],
            None => seq![],
        }
    }
}

/// The keys of either object.
proof fn lemma_either_keys(x: Entries, y: Entries, i: int, done: Seq<Text>)
    requires
        0 <= i <= y.len(),
        distinct(y),
        done.no_duplicates(),
        forall|j: int| 0 <= j < x.len() ==> done.contains((#[trigger] x[j]).0),
        forall|j: int| 0 <= j < i ==> done.contains((#[trigger] y[j]).0),
        forall|k: Text| #[trigger] done.contains(k) ==> has_key(x, k) || exists|j: int|
            0 <= j < i && (#[trigger] y[j]).0 == k,
    ensures
        ({
            let ks = either_keys(x, y, i, done);
            &&& ks.no_duplicates()
            &&& forall|k: Text| #[trigger] ks.contains(k) == (has_key(x, k) || has_key(y, k))
        }),
    decreases y.len() - i,
{
    if i < y.len() {
        let k = y[i].0;
        let more = if has_key(x, k) {
            done
        } else {
            done.push(k)
        };
        lemma_key_index(x, k);
        if has_key(x, k) {
            assert(done.contains(x[key_index(x, k)].0));
        } else {
            assert(!done.contains(k)) by {
                if done.contains(k) {
                    let j = choose|j: int| 0 <= j < i && (#[trigger] y[j]).0 == k;
                    assert(y[j].0 != y[i].0);
                }
            }
            assert(more[done.len() as int] == k);
            assert forall|q: Text| done.contains(q) implies #[trigger] more.contains(q) by {
                let j = choose|j: int| 0 <= j < done.len() && done[j] == q;
                assert(more[j] == q);
            }
        }
        assert forall|j: int| 0 <= j < i + 1 implies more.contains((#[trigger] y[j]).0) by {
            if j < i {
                assert(done.contains(y[j].0));
            }
        }
        assert forall|j: int| 0 <= j < x.len() implies more.contains((#[trigger] x[j]).0) by {
            assert(done.contains(x[j].0));
        }
        assert forall|q: Text| #[trigger] more.contains(q) implies has_key(x, q) || exists|j: int|
            0 <= j < i + 1 && (#[trigger] y[j]).0 == q by {
            let j = choose|j: int| 0 <= j < more.len() && more[j] == q;
            if j < done.len() {
                assert(done[j] == q);
                assert(done.contains(q));
            } else {
                assert(y[i].0 == q);
            }
        }
        lemma_either_keys(x, y, i + 1, more);
    } else {
        assert forall|k: Text| #[trigger] done.contains(k) == (has_key(x, k) || has_key(y, k)) by {
            lemma_key_index(x, k);
            lemma_key_index(y, k);
            if done.contains(k) && !has_key(x, k) {
                let j = choose|j: int| 0 <= j < i && (#[trigger] y[j]).0 == k;
                lemma_entry_found(y, j);
            }
            if has_key(x, k) {
                assert(done.contains(x[key_index(x, k)].0));
            }
            if has_key(y, k) {
                assert(done.contains(y[key_index(y, k)].0));
            }
        }
    }
}

/// The keys of either object, from the first on.
proof fn lemma_all_keys(x: Entries, y: Entries)
    requires
        distinct(x),
        distinct(y),
    ensures
        ({
            let ks = either_keys(x, y, 0, keys(x));
            &&& ks.no_duplicates()
            &&& forall|k: Text| #[trigger] ks.contains(k) == (has_key(x, k) || has_key(y, k))
        }),
{
    lemma_keys(x);
    assert forall|j: int| 0 <= j < x.len() implies keys(x).contains((#[trigger] x[j]).0) by {
        assert(keys(x)[j] == x[j].0);
    }
    lemma_either_keys(x, y, 0, keys(x));
}

/// Where there are no differences, there are none under any key.
proof fn lemma_none_found(x: Entries, y: Entries, ks: Seq<Text>, i: int, path: Text)
    requires
        0 <= i <= ks.len(),
        key_differences(x, y, ks, i, path).len() == 0,
    ensures
        forall|j: int| i <= j < ks.len() ==> found(x, y, #[trigger] ks[j], path).len() == 0,
    decreases ks.len() - i,
{
    if i < ks.len() {
        let f = found(x, y, ks[i], path);
        let rest = key_differences(x, y, ks, i + 1, path);
        assert(key_differences(x, y, ks, i, path) == f + rest);
        lemma_none_found(x, y, ks, i + 1, path);
    }
}

/// Regular values that do not differ have the same fingerprint.
proof fn lemma_no_differences(a: Val, b: Val, path: Text)
    requires
        is_regular(a),
        is_regular(b),
        differences(a, b, path).len() == 0,
    ensures
        fingerprint(a) == fingerprint(b),
    decreases a,
{
    if same(a, b) {
        if val_eq(a, b) {
            lemma_equal(a, b);
        }
    } else {
        match (a, b) {
            (Val::Object(x), Val::Object(y)) => {
                let ks = either_keys(x, y, 0, keys(x));
                assert(decreases_to!(a => x));
                lemma_all_keys(x, y);
                lemma_none_found(x, y, ks, 0, path);
                assert forall|k: Text|
                    #![trigger has_key(x, k)]
                    #![trigger has_key(y, k)]
                    has_key(x, k) == has_key(y, k) && (has_key(x, k) ==> fingerprint(
                        x[key_index(x, k)].1,
                    ) == fingerprint(y[key_index(y, k)].1)) by {
                    lemma_key_index(x, k);
                    lemma_key_index(y, k);
                    if has_key(x, k) || has_key(y, k) {
                        assert(ks.contains(k));
                        let j = choose|j: int| 0 <= j < ks.len() && ks[j] == k;
                        assert(found(x, y, ks[j], path).len() == 0);
                        let i = key_index(x, k);
                        lemma_entry_smaller(x, i);
                        lemma_entry_regular(x, 0, i);
                        lemma_entry_regular(y, 0, key_index(y, k));
                        lemma_no_differences(x[i].1, y[key_index(y, k)].1, below(path, k));
                    }
                }
                lemma_object_print(x, y);
            },
            _ => {},
        }
    }
}

/// Regular values are the same exactly where they differ in nothing.
pub proof fn no_differences_mean_the_same(a: Val, b: Val, path: Text)
    requires
        is_regular(a),
        is_regular(b),
    ensures
        differences(a, b, path).len() == 0 <==> same(a, b),
{
    if differences(a, b, path).len() == 0 {
        lemma_no_differences(a, b, path);
    }
}

/// Whether a difference is one between two objects.
pub open spec fn is_between_objects(d: Difference) -> bool {
    d.change matches Change::Changed { old, new } && old is Object && new is Object
}

/// Objects that differ are told apart by what is in them: none is reported as a
/// whole in the place of another.
pub proof fn objects_differ_by_key(a: Val, b: Val, path: Text)
    ensures
        forall|i: int|
            0 <= i < differences(a, b, path).len() ==> !is_between_objects(
                #[trigger] differences(a, b, path)[i],
            ),
    decreases a, 0int,
{
    let all = differences(a, b, path);
    if !same(a, b) {
        match (a, b) {
            (Val::Object(x), Val::Object(y)) => {
                assert(decreases_to!(a => x));
                lemma_keys_differ(x, y, either_keys(x, y, 0, keys(x)), 0, path);
                assert(all == key_differences(x, y, either_keys(x, y, 0, keys(x)), 0, path));
            },
            _ => {
                assert(all[0].change == Change::Changed { old: a, new: b });
                assert(!is_between_objects(all[0]));
            },
        }
    }
}

/// No difference under a key is one between two objects.
proof fn lemma_keys_differ(x: Entries, y: Entries, ks: Seq<Text>, i: int, path: Text)
    requires
        0 <= i <= ks.len(),
    ensures
        forall|j: int|
            0 <= j < key_differences(x, y, ks, i, path).len() ==> !is_between_objects(
                #[trigger] key_differences(x, y, ks, i, path)[j],
            ),
    decreases x, ks.len() - i,
{
    if i < ks.len() {
        let k = ks[i];
        let f = found(x, y, k, path);
        let rest = key_differences(x, y, ks, i + 1, path);
        let all = key_differences(x, y, ks, i, path);
        assert(all == f + rest);
        lemma_keys_differ(x, y, ks, i + 1, path);
        if has_key(x, k) && has_key(y, k) {
            lemma_key_index(x, k);
            lemma_entry_smaller(x, key_index(x, k));
            objects_differ_by_key(x[key_index(x, k)].1, entry(y, k)->0, below(path, k));
        }
        assert forall|j: int| 0 <= j < all.len() implies !is_between_objects(#[trigger] all[j]) by {
            if j < f.len() {
                assert(all[j] == f[j]);
            } else {
                assert(all[j] == rest[j - f.len()]);
            }
        }
    }
}

/// A difference seen from the other side.
pub open spec fn mirrored(d: Difference) -> Difference {
    Difference {
        path: d.path,
        change: match d.change {
            Change::Added(v) => Change::Removed(v),
            Change::Removed(v) => Change::Added(v),
            Change::Changed { old, new } => Change::Changed { old: new, new: old },
        },
    }
}

/// Differences seen from the other side.
pub open spec fn all_mirrored(s: Seq<Difference>) -> Seq<Difference> {
    Seq::new(s.len(), |i: int| mirrored(s[i]))
}

/// What `f` gives for all keys together.
pub open spec fn pile(f: spec_fn(Text) -> Multiset<Difference>, ks: Seq<Text>) -> Multiset<
    Difference,
>
    decreases ks.len(),
{
    if ks.len() == 0 {
        Multiset::empty()
    } else {
        f(ks[0]).add(pile(f, ks.drop_first()))
    }
}

/// One key taken out of a pile.
proof fn lemma_pile_remove(f: spec_fn(Text) -> Multiset<Difference>, ks: Seq<Text>, j: int)
    requires
        0 <= j < ks.len(),
    ensures
        pile(f, ks) == f(ks[j]).add(pile(f, ks.remove(j))),
    decreases ks.len(),
{
    let rest = ks.drop_first();
    if j == 0 {
        assert(ks.remove(0) =~= rest);
    } else {
        lemma_pile_remove(f, rest, j - 1);
        assert(ks.remove(j).drop_first() =~= rest.remove(j - 1));
        assert(ks.remove(j)[0] == ks[0]);
        assert(rest[j - 1] == ks[j]);
        let a = f(ks[0]);
        let b = f(ks[j]);
        let c = pile(f, rest.remove(j - 1));
        assert(a.add(b.add(c)) =~= b.add(a.add(c)));
    }
}

/// A pile does not tell the order of the keys.
proof fn lemma_pile_order(
    f: spec_fn(Text) -> Multiset<Difference>,
    ks: Seq<Text>,
    ls: Seq<Text>,
)
    requires
        ks.to_multiset() == ls.to_multiset(),
    ensures
        pile(f, ks) == pile(f, ls),
    decreases ks.len(),
{
    broadcast use vstd::seq_lib::group_to_multiset_ensures;

    assert(ks.len() == ks.to_multiset().len());
    assert(ls.len() == ls.to_multiset().len());
    if ks.len() > 0 {
        let k = ks[0];
        assert(ks.contains(k));
        assert(ks.to_multiset().count(k) > 0);
        assert(ls.contains(k));
        let j = choose|j: int| 0 <= j < ls.len() && ls[j] == k;
        assert(ks.remove(0) =~= ks.drop_first());
        assert(ks.remove(0).to_multiset() =~= ks.to_multiset().remove(k));
        assert(ls.remove(j).to_multiset() =~= ls.to_multiset().remove(k));
        lemma_pile_order(f, ks.drop_first(), ls.remove(j));
        lemma_pile_remove(f, ls, j);
    }
}

/// Piles of the same are the same.
proof fn lemma_pile_same(
    f: spec_fn(Text) -> Multiset<Difference>,
    g: spec_fn(Text) -> Multiset<Difference>,
    ks: Seq<Text>,
)
    requires
        forall|j: int| 0 <= j < ks.len() ==> f(#[trigger] ks[j]) == g(ks[j]),
    ensures
        pile(f, ks) == pile(g, ks),
    decreases ks.len(),
{
    if ks.len() > 0 {
        let rest = ks.drop_first();
        assert forall|j: int| 0 <= j < rest.len() implies f(#[trigger] rest[j]) == g(rest[j]) by {
            assert(rest[j] == ks[j + 1]);
        }
        lemma_pile_same(f, g, rest);
        assert(f(ks[0]) == g(ks[0]));
    }
}

/// What is found under a key.
pub open spec fn finder(x: Entries, y: Entries, path: Text) -> spec_fn(Text) -> Multiset<Difference> {
    |k: Text| found(x, y, k, path).to_multiset()
}

/// What is found under a key, seen from the other side.
pub open spec fn other_finder(x: Entries, y: Entries, path: Text) -> spec_fn(Text) -> Multiset<
    Difference,
> {
    |k: Text| all_mirrored(found(x, y, k, path)).to_multiset()
}

/// The differences under keys are piled up.
proof fn lemma_piled(x: Entries, y: Entries, ks: Seq<Text>, i: int, path: Text)
    requires
        0 <= i <= ks.len(),
    ensures
        ({
            let all = key_differences(x, y, ks, i, path);
            let rest = ks.subrange(i, ks.len() as int);
            &&& all.to_multiset() == pile(finder(x, y, path), rest)
            &&& all_mirrored(all).to_multiset() == pile(other_finder(x, y, path), rest)
        }),
    decreases ks.len() - i,
{
    let all = key_differences(x, y, ks, i, path);
    let rest = ks.subrange(i, ks.len() as int);
    if i < ks.len() {
        let f = found(x, y, ks[i], path);
        let more = key_differences(x, y, ks, i + 1, path);
        assert(all == f + more);
        lemma_piled(x, y, ks, i + 1, path);
        assert(rest.drop_first() =~= ks.subrange(i + 1, ks.len() as int));
        assert(rest[0] == ks[i]);
        lemma_multiset_commutative(f, more);
        assert(all_mirrored(all) =~= all_mirrored(f) + all_mirrored(more));
        lemma_multiset_commutative(all_mirrored(f), all_mirrored(more));
    } else {
        broadcast use vstd::seq_lib::group_to_multiset_ensures;

        assert(all =~= seq![]);
        assert(all_mirrored(all) =~= seq![]);
        assert(all.to_multiset() =~= Multiset::empty());
        assert(all_mirrored(all).to_multiset() =~= Multiset::empty());
    }
}

/// Two values are the same whichever comes first.
proof fn lemma_same_both_ways(a: Val, b: Val)
    requires
        well_keyed(a),
        well_keyed(b),
    ensures
        same(a, b) == same(b, a),
{
    if val_eq(a, b) {
        equality_goes_both_ways(a, b);
    }
    if val_eq(b, a) {
        equality_goes_both_ways(b, a);
    }
}

/// The differences between two values, seen from the other side, are those
/// between the second and the first: at the same paths, with added and removed
/// exchanged, and old and new.
pub proof fn differences_go_both_ways(a: Val, b: Val, path: Text)
    requires
        well_keyed(a),
        well_keyed(b),
    ensures
        differences(b, a, path).to_multiset() == all_mirrored(
            differences(a, b, path),
        ).to_multiset(),
    decreases a,
{
    lemma_same_both_ways(a, b);
    let s = differences(a, b, path);
    let t = differences(b, a, path);
    if same(a, b) {
        assert(all_mirrored(s) =~= t);
    } else {
        match (a, b) {
            (Val::Object(x), Val::Object(y)) => {
                assert(decreases_to!(a => x));
                let ks = either_keys(x, y, 0, keys(x));
                let ls = either_keys(y, x, 0, keys(y));
                lemma_all_keys(x, y);
                lemma_all_keys(y, x);
                assert forall|k: Text| #[trigger] ks.contains(k) == ls.contains(k) by {
                    assert(ls.contains(k) == (has_key(y, k) || has_key(x, k)));
                }
                lemma_same_texts(ks, ls);
                lemma_piled(x, y, ks, 0, path);
                lemma_piled(y, x, ls, 0, path);
                assert(ks.subrange(0, ks.len() as int) =~= ks);
                assert(ls.subrange(0, ls.len() as int) =~= ls);
                let f = other_finder(x, y, path);
                let g = finder(y, x, path);
                assert forall|j: int| 0 <= j < ks.len() implies f(#[trigger] ks[j]) == g(ks[j]) by {
                    let k = ks[j];
                    lemma_key_index(x, k);
                    lemma_key_index(y, k);
                    if has_key(x, k) && has_key(y, k) {
                        let i = key_index(x, k);
                        lemma_entry_smaller(x, i);
                        lemma_entry_keyed(x, 0, i);
                        lemma_entry_keyed(y, 0, key_index(y, k));
                        differences_go_both_ways(
                            x[i].1,
                            y[key_index(y, k)].1,
                            below(path, k),
                        );
                    } else {
                        assert(all_mirrored(found(x, y, k, path)) =~= found(y, x, k, path));
                    }
                }
                lemma_pile_same(f, g, ks);
                lemma_pile_order(g, ks, ls);
            },
            _ => {
                assert(all_mirrored(s) =~= t);
            },
        }
    }
}

} // verus!
