//! Values as JSON, and JSON as values.

use serde_json::Value as Json;
use vstd::prelude::*;
use crate::float::{float_of, names_float, Float};
use crate::number::{json_number_form, json_number_text};
use crate::order::{ascending, before, lemma_place, place};
use crate::text::{owned, Text};
use crate::value::{
    compact, compact_as_str, distinct, entries_in, has_key, items_eq, key_index, keys,
    lemma_entry_found, lemma_entry_smaller, lemma_item_smaller, lemma_key_index, lemma_models,
    lemma_models_push, models, put, val_eq, Entries, SconMap, Val, Value,
};

verus! {

// ---------------------------------------------------------------------------
// The outside values

/// `serde_json::Value`, a JSON value.
#[verifier::external_type_specification]
#[verifier::external_body]
pub struct ExJsonValue(Json);

/// What a JSON value holds: a number that fits as an integer, any other number
/// as its text, the entries of an object in the order of their keys.
pub uninterp spec fn json_of(v: serde_json::Value) -> Val;

/// What a text stands for when it is read as a JSON number.
pub uninterp spec fn json_number_of(t: Seq<char>) -> Val;

/// The JSON text of a value.
pub uninterp spec fn json_text(v: Val) -> Seq<char>;

/// `serde_json::Value::Null`.
#[verifier::external_body]
fn json_null() -> (r: serde_json::Value)
    ensures
        json_of(r) == Val::Null,
{
    serde_json::Value::Null
}

/// `serde_json::Value::Bool`.
#[verifier::external_body]
fn json_bool(b: bool) -> (r: serde_json::Value)
    ensures
        json_of(r) == Val::Bool(b),
{
    serde_json::Value::Bool(b)
}

/// `serde_json::Value::from` on an integer.
#[verifier::external_body]
fn json_integer(n: i64) -> (r: serde_json::Value)
    ensures
        json_of(r) == Val::Integer(n),
{
    serde_json::Value::from(n)
}

/// `serde_json::Number::from_str`: the number that a text stands for, or `null`
/// where it stands for none that JSON can hold. A text with a point is read as
/// the nearest machine float. The text of such a float is decimal and stands for
/// no number beyond the floats, and its number, in the form that is handed to
/// JSON here, is read as the same float.
#[verifier::external_body]
pub(crate) fn json_number(t: &str) -> (r: serde_json::Value)
    ensures
        json_of(r) == json_number_of(t@),
        json_of(r) is Float && t@.contains('.') ==> names_float(json_of(r)->Float_0),
{
    match t.parse::<serde_json::Number>() {
        Ok(n) => serde_json::Value::Number(n),
        Err(_) => serde_json::Value::Null,
    }
}

/// `serde_json::Value::String`.
#[verifier::external_body]
fn json_string(s: String) -> (r: serde_json::Value)
    ensures
        json_of(r) == Val::Str(s@),
{
    serde_json::Value::String(s)
}

/// `serde_json::Value::Array`.
#[verifier::external_body]
fn json_array(a: Vec<serde_json::Value>) -> (r: serde_json::Value)
    ensures
        json_of(r) == Val::Array(json_items(a@)),
{
    serde_json::Value::Array(a)
}

/// `serde_json::Map::from_iter`: an object with the entries, put one after the
/// other under their keys, in the order of the keys.
#[verifier::external_body]
fn json_object(o: Vec<(String, serde_json::Value)>) -> (r: serde_json::Value)
    ensures
        json_of(r) == Val::Object(in_order(json_entries(o@), 0, seq![])),
{
    serde_json::Value::Object(serde_json::Map::from_iter(o))
}

/// `serde_json::to_string`: the JSON text of a value. Every JSON value has one:
/// its keys are strings, and writing to memory does not fail.
#[verifier::external_body]
fn json_to_string(v: &serde_json::Value) -> (r: Option<String>)
    ensures
        r is Some,
        r->0@ == json_text(json_of(*v)),
{
    serde_json::to_string(v).ok()
}

/// One level of a JSON value.
pub enum JsonNode<'a> {
    Null,
    Bool(bool),
    Number(Option<i64>, String),
    String(&'a str),
    Array(&'a Vec<serde_json::Value>),
    Object(Vec<(&'a str, &'a serde_json::Value)>),
}

/// The variants of `serde_json::Value`, a number by `serde_json::Number::as_i64`
/// and by its text, an object by `serde_json::Map::iter`, which goes by ascending
/// keys.
#[verifier::external_body]
pub(crate) fn json_node<'a>(v: &'a serde_json::Value) -> (r: JsonNode<'a>)
    ensures
        match r {
            JsonNode::Null => json_of(*v) == Val::Null,
            JsonNode::Bool(b) => json_of(*v) == Val::Bool(b),
            JsonNode::Number(Some(n), _) => json_of(*v) == Val::Integer(n),
            JsonNode::Number(None, t) => json_of(*v) == Val::Float(t@),
            JsonNode::String(s) => json_of(*v) == Val::Str(s@),
            JsonNode::Array(a) => json_of(*v) == Val::Array(json_items(a@)),
            JsonNode::Object(o) => json_of(*v) == Val::Object(json_pairs(o@)) && ascending(
                keys(json_pairs(o@)),
            ),
        },
{
    match v {
        serde_json::Value::Null => JsonNode::Null,
        serde_json::Value::Bool(b) => JsonNode::Bool(*b),
        serde_json::Value::Number(n) => JsonNode::Number(n.as_i64(), n.to_string()),
        serde_json::Value::String(s) => JsonNode::String(s.as_str()),
        serde_json::Value::Array(a) => JsonNode::Array(a),
        serde_json::Value::Object(m) => JsonNode::Object(m.iter().map(|(k, x)| (k.as_str(), x)).collect()),
    }
}

/// What the values of a JSON array hold.
pub open spec fn json_items(s: Seq<serde_json::Value>) -> Seq<Val> {
    Seq::new(s.len(), |i: int| json_of(s[i]))
}

/// What entries with JSON values hold.
pub open spec fn json_entries(s: Seq<(String, serde_json::Value)>) -> Entries {
    Seq::new(s.len(), |i: int| (s[i].0@, json_of(s[i].1)))
}

/// What the entries of a JSON object hold.
pub open spec fn json_pairs(s: Seq<(&str, &serde_json::Value)>) -> Entries {
    Seq::new(s.len(), |i: int| (s[i].0@, json_of(*s[i].1)))
}

// ---------------------------------------------------------------------------
// From values to JSON

/// The entries with `v` under key `k`: in the place of the entry that had the
/// key, or else behind the entries whose keys come before it.
pub open spec fn put_in_order(s: Entries, k: Text, v: Val) -> Entries {
    if has_key(s, k) {
        s.update(key_index(s, k), (k, v))
    } else {
        s.insert(place(keys(s), k, 0), (k, v))
    }
}

/// The entries of `s` from the `i`-th on, put one after the other among `done`.
pub open spec fn in_order(s: Entries, i: int, done: Entries) -> Entries
    decreases s.len() - i,
{
    if 0 <= i < s.len() {
        in_order(s, i + 1, put_in_order(done, s[i].0, s[i].1))
    } else {
        done
    }
}

/// The JSON value for a value.
pub open spec fn to_json(v: Val) -> Val
    decreases v, 0int,
{
    match v {
        Val::Float(t) => json_number_of(json_number_text(t)),
        Val::Array(a) => Val::Array(to_json_items(a, 0, seq![])),
        Val::Object(o) => Val::Object(in_order(to_json_entries(o, 0, seq![]), 0, seq![])),
        _ => v,
    }
}

/// The JSON values for the items from `i` on, behind `done`.
pub open spec fn to_json_items(a: Seq<Val>, i: int, done: Seq<Val>) -> Seq<Val>
    decreases a, a.len() - i,
{
    if 0 <= i < a.len() {
        to_json_items(a, i + 1, done.push(to_json(a[i])))
    } else {
        done
    }
}

/// The entries from `i` on with their JSON values, behind `done`.
pub open spec fn to_json_entries(o: Entries, i: int, done: Entries) -> Entries
    decreases o, o.len() - i,
{
    if 0 <= i < o.len() {
        to_json_entries(o, i + 1, done.push((o[i].0, to_json(o[i].1))))
    } else {
        done
    }
}

/// The JSON value for a value.
pub fn scon_to_json(v: &Value) -> (r: serde_json::Value)
    ensures
        json_of(r) == to_json(v@),
    decreases v@,
{
    match v {
        Value::Null => json_null(),
        Value::Bool(b) => json_bool(*b),
        Value::Integer(n) => json_integer(*n),
        Value::Float(t) => json_number(json_number_form(t.as_str()).as_str()),
        Value::String(s) => json_string(owned(compact_as_str(s))),
        Value::Array(a) => {
            assert(decreases_to!(v@ => v@->Array_0));
            proof {
                lemma_models(a@);
            }
            let mut items: Vec<serde_json::Value> = Vec::new();
            let mut i: usize = 0;
            assert(json_items(items@) =~= seq![]);
            while i < a.len()
                invariant
                    i <= a@.len() == models(a@).len(),
                    decreases_to!(v@ => models(a@)),
                    forall|j: int| 0 <= j < a@.len() ==> models(a@)[j] == (#[trigger] a@[j])@,
                    to_json_items(models(a@), 0, seq![]) == to_json_items(
                        models(a@),
                        i as int,
                        json_items(items@),
                    ),
                decreases a@.len() - i,
            {
                proof {
                    lemma_item_smaller(models(a@), i as int);
                    assert(a@[i as int]@ == models(a@)[i as int]);
                }
                let ghost before = items@;
                let x = scon_to_json(&a[i]);
                items.push(x);
                assert(json_items(items@) =~= json_items(before).push(json_of(x)));
                i += 1;
            }
            json_array(items)
        },
        Value::Object(o) => {
            assert(decreases_to!(v@ => v@->Object_0));
            let mut entries: Vec<(String, serde_json::Value)> = Vec::new();
            let n: usize = o.len();
            let mut i: usize = 0;
            assert(json_entries(entries@) =~= seq![]);
            while i < n
                invariant
                    i <= n == o@.len(),
                    decreases_to!(v@ => o@),
                    to_json_entries(o@, 0, seq![]) == to_json_entries(
                        o@,
                        i as int,
                        json_entries(entries@),
                    ),
                decreases n - i,
            {
                proof {
                    lemma_entry_smaller(o@, i as int);
                }
                let x = scon_to_json(o.value_at(i));
                let k = owned(o.key_at(i));
                let ghost before = entries@;
                entries.push((k, x));
                assert(json_entries(entries@) =~= json_entries(before).push((k@, json_of(x))));
                i += 1;
            }
            json_object(entries)
        },
    }
}

/// The JSON text of a value.
pub(crate) fn value_to_json_text(v: &Value) -> (r: String)
    ensures
        r@ == json_text(to_json(v@)),
{
    match json_to_string(&scon_to_json(v)) {
        Some(s) => s,
        None => String::new(),
    }
}

// ---------------------------------------------------------------------------
// From JSON to values

/// The value for what a JSON value holds: a number that is no integer is the
/// float that its text names.
pub open spec fn from_json(v: Val) -> Val
    decreases v, 0int,
{
    match v {
        Val::Float(t) => match float_of(t) {
            Some(u) => Val::Float(u),
            None => Val::Null,
        },
        Val::Array(a) => Val::Array(from_json_items(a, 0, seq![])),
        Val::Object(o) => Val::Object(from_json_entries(o, 0, seq![])),
        _ => v,
    }
}

/// The values for the items from `i` on, behind `done`.
pub open spec fn from_json_items(a: Seq<Val>, i: int, done: Seq<Val>) -> Seq<Val>
    decreases a, a.len() - i,
{
    if 0 <= i < a.len() {
        from_json_items(a, i + 1, done.push(from_json(a[i])))
    } else {
        done
    }
}

/// The entries from `i` on with their values, put one after the other among
/// `done`.
pub open spec fn from_json_entries(o: Entries, i: int, done: Entries) -> Entries
    decreases o, o.len() - i,
{
    if 0 <= i < o.len() {
        from_json_entries(o, i + 1, put(done, o[i].0, from_json(o[i].1)))
    } else {
        done
    }
}

/// The value for a JSON value.
pub fn json_to_scon(v: &serde_json::Value) -> (r: Value)
    ensures
        r@ == from_json(json_of(*v)),
    decreases json_of(*v),
{
    match json_node(v) {
        JsonNode::Null => Value::Null,
        JsonNode::Bool(b) => Value::Bool(b),
        JsonNode::Number(Some(n), _) => Value::Integer(n),
        JsonNode::Number(None, t) => match Float::new(t.as_str()) {
            Some(f) => Value::Float(f),
            None => Value::Null,
        },
        JsonNode::String(s) => Value::String(compact(s)),
        JsonNode::Array(a) => {
            let ghost w = json_of(*v);
            let ghost all = json_items(a@);
            assert(decreases_to!(w => w->Array_0));
            let mut items: Vec<Value> = Vec::new();
            let mut i: usize = 0;
            assert(models(items@) =~= seq![]);
            while i < a.len()
                invariant
                    i <= a@.len(),
                    w == json_of(*v),
                    all == json_items(a@),
                    decreases_to!(w => all),
                    from_json_items(all, 0, seq![]) == from_json_items(
                        all,
                        i as int,
                        models(items@),
                    ),
                decreases a@.len() - i,
            {
                proof {
                    lemma_item_smaller(all, i as int);
                    assert(all[i as int] == json_of(a@[i as int]));
                }
                let x = json_to_scon(&a[i]);
                proof {
                    lemma_models_push(items@, x);
                }
                items.push(x);
                i += 1;
            }
            Value::Array(items)
        },
        JsonNode::Object(o) => {
            let ghost w = json_of(*v);
            let ghost all = json_pairs(o@);
            assert(decreases_to!(w => w->Object_0));
            let mut out: SconMap = SconMap::new();
            let mut i: usize = 0;
            assert(out@ =~= seq![]);
            while i < o.len()
                invariant
                    i <= o@.len(),
                    w == json_of(*v),
                    all == json_pairs(o@),
                    decreases_to!(w => all),
                    from_json_entries(all, 0, seq![]) == from_json_entries(all, i as int, out@),
                decreases o@.len() - i,
            {
                proof {
                    lemma_entry_smaller(all, i as int);
                }
                let (k, x) = o[i];
                assert(all[i as int] == (k@, json_of(*x)));
                let y = json_to_scon(x);
                out.insert(compact(k), y);
                i += 1;
            }
            Value::Object(out)
        },
    }
}

impl From<&serde_json::Value> for Value {
    fn from(v: &serde_json::Value) -> (r: Value)
        ensures
            r@ == from_json(json_of(*v)),
    {
        json_to_scon(v)
    }
}

impl vstd::std_specs::convert::FromSpecImpl<&serde_json::Value> for Value {
    open spec fn obeys_from_spec() -> bool {
        false
    }

    open spec fn from_spec(v: &serde_json::Value) -> Value {
        arbitrary()
    }
}

// ---------------------------------------------------------------------------
// What JSON keeps

/// Whether there is no number in `v` that is no integer, and no object with a key
/// twice.
pub open spec fn holds_no_decimals(v: Val) -> bool
    decreases v, 0int,
{
    match v {
        Val::Float(_) => false,
        Val::Array(a) => items_no_decimals(a, 0),
        Val::Object(o) => distinct(o) && entries_no_decimals(o, 0),
        _ => true,
    }
}

/// Whether there is no such number in the items from `i` on.
pub open spec fn items_no_decimals(a: Seq<Val>, i: int) -> bool
    decreases a, a.len() - i,
{
    if 0 <= i < a.len() {
        holds_no_decimals(a[i]) && items_no_decimals(a, i + 1)
    } else {
        true
    }
}

/// Whether there is no such number in the entries from `i` on.
pub open spec fn entries_no_decimals(o: Entries, i: int) -> bool
    decreases o, o.len() - i,
{
    if 0 <= i < o.len() {
        holds_no_decimals(o[i].1) && entries_no_decimals(o, i + 1)
    } else {
        true
    }
}

/// The items of a JSON array are the JSON values of the items.
pub proof fn lemma_json_items(a: Seq<Val>, i: int, done: Seq<Val>)
    requires
        0 <= i <= a.len(),
        done.len() == i,
        forall|j: int| 0 <= j < i ==> #[trigger] done[j] == to_json(a[j]),
    ensures
        to_json_items(a, i, done).len() == a.len(),
        forall|j: int| 0 <= j < a.len() ==> #[trigger] to_json_items(a, i, done)[j] == to_json(a[j]),
    decreases a.len() - i,
{
    if i < a.len() {
        lemma_json_items(a, i + 1, done.push(to_json(a[i])));
    }
}

/// The entries of an object with their JSON values.
pub proof fn lemma_json_entries(o: Entries, i: int, done: Entries)
    requires
        0 <= i <= o.len(),
        done.len() == i,
        forall|j: int| 0 <= j < i ==> #[trigger] done[j] == (o[j].0, to_json(o[j].1)),
    ensures
        to_json_entries(o, i, done).len() == o.len(),
        forall|j: int|
            0 <= j < o.len() ==> #[trigger] to_json_entries(o, i, done)[j] == (
                o[j].0,
                to_json(o[j].1),
            ),
    decreases o.len() - i,
{
    if i < o.len() {
        lemma_json_entries(o, i + 1, done.push((o[i].0, to_json(o[i].1))));
    }
}

/// Whether `x` is one of the first `n` entries of `s`.
pub open spec fn is_among(x: (Text, Val), s: Entries, n: int) -> bool {
    exists|p: int| 0 <= p < n && #[trigger] s[p] == x
}

/// Entries that are put in order stay what they are.
pub proof fn lemma_in_order(s: Entries, i: int, done: Entries)
    requires
        0 <= i <= s.len(),
        distinct(s),
        done.len() == i,
        forall|q: int| 0 <= q < i ==> is_among(#[trigger] done[q], s, i),
    ensures
        in_order(s, i, done).len() == s.len(),
        forall|q: int|
            0 <= q < s.len() ==> is_among(#[trigger] in_order(s, i, done)[q], s, s.len() as int),
    decreases s.len() - i,
{
    if i < s.len() {
        let k = s[i].0;
        lemma_key_index(done, k);
        if has_key(done, k) {
            let q = key_index(done, k);
            assert(is_among(done[q], s, i));
            let p = choose|p: int| 0 <= p < i && #[trigger] s[p] == done[q];
            assert(s[p].0 == s[i].0);
        }
        let at = place(keys(done), k, 0);
        lemma_place(keys(done), k, 0);
        let next = put_in_order(done, k, s[i].1);
        assert(next == done.insert(at, (k, s[i].1)));
        assert forall|q: int| 0 <= q < i + 1 implies is_among(#[trigger] next[q], s, i + 1) by {
            if q == at {
                assert(s[i] == next[q]);
            } else {
                let r = if q < at {
                    q
                } else {
                    q - 1
                };
                assert(next[q] == done[r]);
                assert(is_among(done[r], s, i));
                let p = choose|p: int| 0 <= p < i && #[trigger] s[p] == done[r];
                assert(s[p] == next[q]);
            }
        }
        lemma_in_order(s, i + 1, next);
    }
}

/// The JSON value for a value without numbers but integers equals it: from a
/// value to JSON and back, the entries of an object may change their order and
/// nothing else.
pub proof fn json_keeps_the_value(v: Val)
    requires
        holds_no_decimals(v),
    ensures
        val_eq(to_json(v), v),
    decreases v, 0int,
{
    match v {
        Val::Array(a) => {
            assert(decreases_to!(v => a));
            lemma_json_items(a, 0, seq![]);
            lemma_items_kept(a, 0);
        },
        Val::Object(o) => {
            assert(decreases_to!(v => o));
            let s = to_json_entries(o, 0, seq![]);
            lemma_json_entries(o, 0, seq![]);
            assert(distinct(s)) by {
                assert forall|i: int, j: int| 0 <= i < j < s.len() implies s[i].0 != s[j].0 by {
                    assert(o[i].0 != o[j].0);
                }
            }
            lemma_in_order(s, 0, seq![]);
            lemma_entries_kept(o, 0);
            lemma_entries_found(o, in_order(s, 0, seq![]), 0);
        },
        _ => {},
    }
}

/// The items from `i` on equal their JSON values.
proof fn lemma_items_kept(a: Seq<Val>, i: int)
    requires
        0 <= i <= a.len(),
        items_no_decimals(a, i),
    ensures
        items_eq(to_json_items(a, 0, seq![]), a, i),
    decreases a, a.len() - i,
{
    lemma_json_items(a, 0, seq![]);
    if i < a.len() {
        lemma_item_smaller(a, i);
        assert(holds_no_decimals(a[i]));
        json_keeps_the_value(a[i]);
        lemma_items_kept(a, i + 1);
    }
}

/// The values of the entries from `i` on equal their JSON values.
proof fn lemma_entries_kept(o: Entries, i: int)
    requires
        0 <= i <= o.len(),
        entries_no_decimals(o, i),
    ensures
        forall|j: int| i <= j < o.len() ==> val_eq(to_json((#[trigger] o[j]).1), o[j].1),
    decreases o, o.len() - i,
{
    if i < o.len() {
        lemma_entry_smaller(o, i);
        assert(holds_no_decimals(o[i].1));
        json_keeps_the_value(o[i].1);
        lemma_entries_kept(o, i + 1);
    }
}

/// Each entry of a JSON object has its equal in the object.
proof fn lemma_entries_found(o: Entries, r: Entries, i: int)
    requires
        0 <= i <= r.len(),
        distinct(o),
        forall|j: int| 0 <= j < o.len() ==> val_eq(to_json((#[trigger] o[j]).1), o[j].1),
        forall|q: int|
            0 <= q < r.len() ==> is_among(
                #[trigger] r[q],
                to_json_entries(o, 0, seq![]),
                o.len() as int,
            ),
    ensures
        entries_in(r, o, i),
    decreases r.len() - i,
{
    if i < r.len() {
        lemma_json_entries(o, 0, seq![]);
        let s = to_json_entries(o, 0, seq![]);
        assert(is_among(r[i], s, o.len() as int));
        let p = choose|p: int| 0 <= p < o.len() && #[trigger] s[p] == r[i];
        assert(r[i] == (o[p].0, to_json(o[p].1)));
        lemma_entry_found(o, p);
        lemma_entries_found(o, r, i + 1);
    }
}

} // verus!
