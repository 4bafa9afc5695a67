//! Laying overrides over a definition: fields taken out, fields merged in, and
//! fields named by a path of keys with dots between them.

use vstd::prelude::*;
use crate::text::{chars_of, find, has_char, lemma_find_from, part, pieces, split, texts, Text};
use crate::value::{
    compact, distinct, entry, has_key, key_index, lemma_entry_found, lemma_entry_keyed,
    lemma_entry_smaller, lemma_key_index, lemma_put, lemma_put_distinct, lemma_without, put,
    well_keyed, without, Entries, SconMap, Val, Value,
};

verus! {

// ---------------------------------------------------------------------------
// What the overrides mean

/// `over` laid over `base`: objects are merged entry by entry, anything else
/// replaces what was there.
pub open spec fn merged(base: Val, over: Val) -> Val
    decreases over, 0nat,
{
    match (base, over) {
        (Val::Object(b), Val::Object(o)) => Val::Object(merged_entries(b, o, 0)),
        _ => over,
    }
}

/// The entries of `o` from `i` on, laid over `b`.
pub open spec fn merged_entries(b: Entries, o: Entries, i: int) -> Entries
    decreases o, o.len() - i,
{
    if 0 <= i < o.len() {
        let v = match entry(b, o[i].0) {
            Some(old) => merged(old, o[i].1),
            None => o[i].1,
        };
        merged_entries(put(b, o[i].0, v), o, i + 1)
    } else {
        b
    }
}

/// `v` with `new` at the end of the path `keys` from `i` on. What stands in the
/// way of the path and is no object makes room for one.
pub open spec fn set_at(v: Val, keys: Seq<Text>, i: int, new: Val) -> Val
    decreases keys.len() - i,
{
    match v {
        Val::Object(m) if 0 <= i < keys.len() => if i == keys.len() - 1 {
            Val::Object(put(m, keys[i], new))
        } else {
            let child = match entry(m, keys[i]) {
                Some(Val::Object(c)) => Val::Object(c),
                _ => Val::Object(seq![]),
            };
            Val::Object(put(m, keys[i], set_at(child, keys, i + 1, new)))
        },
        _ => v,
    }
}

/// `v` without what the path `keys` from `i` on leads to.
pub open spec fn unset_at(v: Val, keys: Seq<Text>, i: int) -> Val
    decreases keys.len() - i,
{
    match v {
        Val::Object(m) if 0 <= i < keys.len() => if i == keys.len() - 1 {
            Val::Object(without(m, keys[i]))
        } else {
            match entry(m, keys[i]) {
                Some(c) => Val::Object(put(m, keys[i], unset_at(c, keys, i + 1))),
                None => v,
            }
        },
        _ => v,
    }
}

/// `base` without the field `field`, which a dot makes a path.
pub open spec fn field_removed(base: Val, field: Text) -> Val {
    if field.contains('.') {
        unset_at(base, split(field, '.'), 0)
    } else {
        match base {
            Val::Object(b) => Val::Object(without(b, field)),
            _ => base,
        }
    }
}

/// `base` with `v` laid over its field `key`, which a dot makes a path.
pub open spec fn field_merged(base: Val, key: Text, v: Val) -> Val {
    if key.contains('.') {
        set_at(base, split(key, '.'), 0, v)
    } else {
        match base {
            Val::Object(b) => match entry(b, key) {
                Some(old) => Val::Object(put(b, key, merged(old, v))),
                None => Val::Object(put(b, key, v)),
            },
            _ => base,
        }
    }
}

/// Whether an override with key `key` takes a field out.
pub open spec fn is_removal(key: Text) -> bool {
    key.len() > 0 && key[0] == '-'
}

/// `base` after the removals among the overrides from `i` on.
pub open spec fn all_removed(base: Val, o: Entries, i: int) -> Val
    decreases o.len() - i,
{
    if 0 <= i < o.len() {
        let next = if is_removal(o[i].0) {
            field_removed(base, o[i].0.subrange(1, o[i].0.len() as int))
        } else {
            base
        };
        all_removed(next, o, i + 1)
    } else {
        base
    }
}

/// `base` after the other overrides from `i` on.
pub open spec fn all_merged(base: Val, o: Entries, i: int) -> Val
    decreases o.len() - i,
{
    if 0 <= i < o.len() {
        let next = if is_removal(o[i].0) {
            base
        } else {
            field_merged(base, o[i].0, o[i].1)
        };
        all_merged(next, o, i + 1)
    } else {
        base
    }
}

/// `base` with the overrides `over` laid over it: first the removals, whose
/// keys begin with a minus sign, then the others. What is no object overrides
/// nothing.
pub open spec fn overridden(base: Val, over: Val) -> Val {
    match over {
        Val::Object(o) => all_merged(all_removed(base, o, 0), o, 0),
        _ => base,
    }
}

// ---------------------------------------------------------------------------
// Computing them

/// `over` laid over `base`.
pub(crate) fn deep_merge(base: &Value, over: &Value) -> (r: Value)
    ensures
        r@ == merged(base@, over@),
    decreases over@,
{
    match (base, over) {
        (Value::Object(b), Value::Object(o)) => {
            let mut result: SconMap = b.clone();
            let n: usize = o.len();
            let mut i: usize = 0;
            assert(decreases_to!(over@ => over@->Object_0));
            while i < n
                invariant
                    i <= n == o@.len(),
                    decreases_to!(over@ => o@),
                    merged_entries(b@, o@, 0) == merged_entries(result@, o@, i as int),
                decreases n - i,
            {
                let k = o.key_at(i);
                let v = o.value_at(i);
                proof {
                    lemma_entry_smaller(o@, i as int);
                }
                let new: Value = match result.get(k) {
                    Some(old) => deep_merge(old, v),
                    None => v.clone(),
                };
                result.insert(compact(k), new);
                i += 1;
            }
            Value::Object(result)
        },
        _ => over.clone(),
    }
}

/// `v` with `new` at the end of the path.
fn with_path_set(v: Value, keys: &Vec<&str>, i: usize, new: Value) -> (r: Value)
    requires
        i < keys@.len(),
    ensures
        r@ == set_at(v@, texts(keys@), i as int, new@),
    decreases keys@.len() - i,
{
    match v {
        Value::Object(m) => {
            let mut map: SconMap = m;
            let k: &str = keys[i];
            if i == keys.len() - 1 {
                map.insert(compact(k), new);
            } else {
                let child: Value = match map.get(k) {
                    Some(Value::Object(c)) => Value::Object(c.clone()),
                    _ => Value::Object(SconMap::new()),
                };
                let changed = with_path_set(child, keys, i + 1, new);
                map.insert(compact(k), changed);
            }
            Value::Object(map)
        },
        other => other,
    }
}

/// Puts `val` at the end of the path `path`.
pub(crate) fn set_dot_path(obj: Value, path: &str, val: Value) -> (r: Value)
    ensures
        r@ == set_at(obj@, split(path@, '.'), 0, val@),
{
    let keys = pieces(path, '.');
    with_path_set(obj, &keys, 0, val)
}

/// `v` without what the path leads to.
fn with_path_unset(v: Value, keys: &Vec<&str>, i: usize) -> (r: Value)
    requires
        i < keys@.len(),
    ensures
        r@ == unset_at(v@, texts(keys@), i as int),
    decreases keys@.len() - i,
{
    match v {
        Value::Object(m) => {
            let mut map: SconMap = m;
            let k: &str = keys[i];
            if i == keys.len() - 1 {
                map.shift_remove(k);
            } else {
                let child: Option<Value> = match map.get(k) {
                    Some(c) => Some(c.clone()),
                    None => None,
                };
                if let Some(c) = child {
                    let changed = with_path_unset(c, keys, i + 1);
                    map.insert(compact(k), changed);
                }
            }
            Value::Object(map)
        },
        other => other,
    }
}

/// Takes out what the path `path` leads to.
pub(crate) fn unset_dot_path(obj: Value, path: &str) -> (r: Value)
    ensures
        r@ == unset_at(obj@, split(path@, '.'), 0),
{
    let keys = pieces(path, '.');
    with_path_unset(obj, &keys, 0)
}

/// `base` without the field `field`.
fn remove_field(base: Value, field: &str) -> (r: Value)
    ensures
        r@ == field_removed(base@, field@),
{
    if has_char(field, '.') {
        return unset_dot_path(base, field);
    }
    match base {
        Value::Object(m) => {
            let mut map: SconMap = m;
            map.shift_remove(field);
            Value::Object(map)
        },
        other => other,
    }
}

/// `base` with `val` laid over its field `key`.
fn merge_field(base: Value, key: &str, val: &Value) -> (r: Value)
    ensures
        r@ == field_merged(base@, key@, val@),
{
    if has_char(key, '.') {
        return set_dot_path(base, key, val.clone());
    }
    match base {
        Value::Object(m) => {
            let mut map: SconMap = m;
            let new: Value = match map.get(key) {
                Some(old) => deep_merge(old, val),
                None => val.clone(),
            };
            map.insert(compact(key), new);
            Value::Object(map)
        },
        other => other,
    }
}

/// `s` without its first character, where that is a minus sign.
fn removal_of<'a>(s: &'a str) -> (r: Option<&'a str>)
    ensures
        match r {
            Some(f) => is_removal(s@) && f@ == s@.subrange(1, s@.len() as int),
            None => !is_removal(s@),
        },
{
    let cs = chars_of(s);
    let n: usize = cs.len();
    if n > 0 && cs[0] == '-' {
        Some(part(s, 1, n))
    } else {
        None
    }
}

/// `base` with the overrides laid over it.
pub(crate) fn apply_overrides(base: Value, overrides: &Value) -> (r: Value)
    ensures
        r@ == overridden(base@, overrides@),
{
    let mut result: Value = base;
    if let Value::Object(o) = overrides {
        let n: usize = o.len();
        let mut i: usize = 0;
        let ghost start = result@;
        while i < n
            invariant
                i <= n == o@.len(),
                all_removed(start, o@, 0) == all_removed(result@, o@, i as int),
            decreases n - i,
        {
            if let Some(field) = removal_of(o.key_at(i)) {
                result = remove_field(result, field);
            }
            i += 1;
        }
        let ghost middle = result@;
        i = 0;
        while i < n
            invariant
                i <= n == o@.len(),
                all_merged(middle, o@, 0) == all_merged(result@, o@, i as int),
            decreases n - i,
        {
            let k = o.key_at(i);
            if removal_of(k).is_none() {
                result = merge_field(result, k, o.value_at(i));
            }
            i += 1;
        }
    }
    result
}

// ---------------------------------------------------------------------------
// What holds of overrides

/// What the path `keys` from `i` on leads to.
pub open spec fn at_path(v: Val, keys: Seq<Text>, i: int) -> Option<Val>
    decreases keys.len() - i,
{
    if 0 <= i < keys.len() {
        match v {
            Val::Object(m) => match entry(m, keys[i]) {
                Some(c) => at_path(c, keys, i + 1),
                None => None,
            },
            _ => None,
        }
    } else {
        Some(v)
    }
}

/// What a path was set to is what it leads to.
pub proof fn a_path_leads_to_what_was_set(m: Entries, keys: Seq<Text>, i: int, new: Val)
    requires
        0 <= i < keys.len(),
    ensures
        at_path(set_at(Val::Object(m), keys, i, new), keys, i) == Some(new),
    decreases keys.len() - i,
{
    reveal_with_fuel(at_path, 2);
    if i == keys.len() - 1 {
        lemma_put(m, keys[i], new, keys[i]);
    } else {
        let c: Entries = match entry(m, keys[i]) {
            Some(Val::Object(c)) => c,
            _ => seq![],
        };
        a_path_leads_to_what_was_set(c, keys, i + 1, new);
        lemma_put(m, keys[i], set_at(Val::Object(c), keys, i + 1, new), keys[i]);
    }
}

/// Without overrides a value stays as it is, and so it does where the overrides
/// are no object.
pub proof fn nothing_overrides_nothing(base: Val, over: Val)
    requires
        over matches Val::Object(o) ==> o.len() == 0,
    ensures
        overridden(base, over) == base,
{
}

/// A field that is taken out is gone, and the others stay.
pub proof fn a_field_taken_out_is_gone(b: Entries, field: Text, v: Val, other: Text)
    requires
        distinct(b),
        !field.contains('.'),
    ensures
        ({
            let r = overridden(Val::Object(b), Val::Object(seq![(seq!['-'] + field, v)]));
            &&& r is Object
            &&& !has_key(r->Object_0, field)
            &&& other != field ==> entry(r->Object_0, other) == entry(b, other)
        }),
{
    let k = seq!['-'] + field;
    let o: Entries = seq![(k, v)];
    assert(k.subrange(1, k.len() as int) =~= field);
    reveal_with_fuel(all_removed, 2);
    reveal_with_fuel(all_merged, 2);
    lemma_without(b, field, other);
}

/// A field that is overridden by anything but an object has the new value, and
/// the others stay.
pub proof fn an_overridden_field_has_the_new_value(b: Entries, key: Text, v: Val, other: Text)
    requires
        !key.contains('.'),
        !is_removal(key),
        !(v is Object),
    ensures
        ({
            let r = overridden(Val::Object(b), Val::Object(seq![(key, v)]));
            &&& r is Object
            &&& entry(r->Object_0, key) == Some(v)
            &&& other != key ==> entry(r->Object_0, other) == entry(b, other)
        }),
{
    reveal_with_fuel(all_removed, 2);
    reveal_with_fuel(all_merged, 2);
    lemma_put(b, key, v, other);
}

/// The field of an object that an override speaks of: its key without the minus
/// sign, up to the first dot.
pub open spec fn field_of(key: Text) -> Text {
    let f = if is_removal(key) {
        key.subrange(1, key.len() as int)
    } else {
        key
    };
    if f.contains('.') {
        split(f, '.')[0]
    } else {
        f
    }
}

/// Whether `r` is an object without a key twice that has under `k` what `b` has.
pub open spec fn agrees(r: Val, b: Entries, k: Text) -> bool {
    r is Object && distinct(r->Object_0) && entry(r->Object_0, k) == entry(b, k)
}

/// What is put under one field leaves the others.
proof fn lemma_put_agrees(b: Entries, key: Text, v: Val, k: Text)
    requires
        distinct(b),
        key != k,
    ensures
        agrees(Val::Object(put(b, key, v)), b, k),
{
    lemma_put(b, key, v, k);
    lemma_put_distinct(b, key, v);
}

/// An override leaves the fields that it does not speak of.
proof fn lemma_field_stays(b: Entries, key: Text, v: Val, k: Text)
    requires
        distinct(b),
        field_of(key) != k,
    ensures
        is_removal(key) ==> agrees(
            field_removed(Val::Object(b), key.subrange(1, key.len() as int)),
            b,
            k,
        ),
        !is_removal(key) ==> agrees(field_merged(Val::Object(b), key, v), b, k),
{
    if is_removal(key) {
        let f = key.subrange(1, key.len() as int);
        let keys = split(f, '.');
        if f.contains('.') {
            if keys.len() == 1 {
                lemma_without(b, keys[0], k);
            } else if keys.len() > 1 && entry(b, keys[0]) is Some {
                lemma_put_agrees(b, keys[0], unset_at(entry(b, keys[0])->0, keys, 1), k);
            }
        } else {
            lemma_without(b, f, k);
        }
    } else if key.contains('.') {
        let keys = split(key, '.');
        if keys.len() > 0 {
            let child: Entries = match entry(b, keys[0]) {
                Some(Val::Object(c)) => c,
                _ => seq![],
            };
            lemma_put_agrees(b, keys[0], v, k);
            lemma_put_agrees(b, keys[0], set_at(Val::Object(child), keys, 1, v), k);
        }
    } else {
        lemma_put_agrees(b, key, v, k);
        if entry(b, key) is Some {
            lemma_put_agrees(b, key, merged(entry(b, key)->0, v), k);
        }
    }
}

/// Removals leave the fields that they do not speak of.
proof fn lemma_removals_leave(r: Val, b: Entries, o: Entries, i: int, k: Text)
    requires
        0 <= i <= o.len(),
        agrees(r, b, k),
        forall|j: int| 0 <= j < o.len() ==> field_of((#[trigger] o[j]).0) != k,
    ensures
        agrees(all_removed(r, o, i), b, k),
    decreases o.len() - i,
{
    if i < o.len() {
        let key = o[i].0;
        lemma_field_stays(r->Object_0, key, o[i].1, k);
        let next = if is_removal(key) {
            field_removed(r, key.subrange(1, key.len() as int))
        } else {
            r
        };
        lemma_removals_leave(next, b, o, i + 1, k);
    }
}

/// The other overrides leave the fields that they do not speak of.
proof fn lemma_merges_leave(r: Val, b: Entries, o: Entries, i: int, k: Text)
    requires
        0 <= i <= o.len(),
        agrees(r, b, k),
        forall|j: int| 0 <= j < o.len() ==> field_of((#[trigger] o[j]).0) != k,
    ensures
        agrees(all_merged(r, o, i), b, k),
    decreases o.len() - i,
{
    if i < o.len() {
        let key = o[i].0;
        lemma_field_stays(r->Object_0, key, o[i].1, k);
        let next = if is_removal(key) {
            r
        } else {
            field_merged(r, key, o[i].1)
        };
        lemma_merges_leave(next, b, o, i + 1, k);
    }
}

/// A field that no override speaks of stays as it is.
pub proof fn other_fields_stay(b: Entries, o: Entries, k: Text)
    requires
        distinct(b),
        forall|j: int| 0 <= j < o.len() ==> field_of((#[trigger] o[j]).0) != k,
    ensures
        ({
            let r = overridden(Val::Object(b), Val::Object(o));
            &&& r is Object
            &&& distinct(r->Object_0)
            &&& entry(r->Object_0, k) == entry(b, k)
        }),
{
    lemma_removals_leave(Val::Object(b), b, o, 0, k);
    lemma_merges_leave(all_removed(Val::Object(b), o, 0), b, o, 0, k);
}

/// What merging the entries from `i` on does to one field.
proof fn lemma_merged_field(b: Entries, o: Entries, i: int, k: Text)
    requires
        0 <= i <= o.len(),
        distinct(o),
    ensures
        ({
            let r = entry(merged_entries(b, o, i), k);
            if has_key(o, k) && key_index(o, k) >= i {
                r == Some(
                    match entry(b, k) {
                        Some(old) => merged(old, entry(o, k)->0),
                        None => entry(o, k)->0,
                    },
                )
            } else {
                r == entry(b, k)
            }
        }),
    decreases o.len() - i,
{
    lemma_key_index(o, k);
    if i < o.len() {
        let v = match entry(b, o[i].0) {
            Some(old) => merged(old, o[i].1),
            None => o[i].1,
        };
        lemma_put(b, o[i].0, v, k);
        lemma_merged_field(put(b, o[i].0, v), o, i + 1, k);
        lemma_entry_found(o, i);
    }
}

/// Merging goes field by field: a field of either object is in the merged one, as
/// it is where only one has it, and merged where both have it.
pub proof fn merging_goes_by_field(b: Entries, o: Entries, k: Text)
    requires
        distinct(o),
    ensures
        merged(Val::Object(b), Val::Object(o)) is Object,
        ({
            let r = merged(Val::Object(b), Val::Object(o))->Object_0;
            entry(r, k) == match (entry(b, k), entry(o, k)) {
                (Some(x), Some(y)) => Some(merged(x, y)),
                (Some(x), None) => Some(x),
                (None, y) => y,
            }
        }),
{
    lemma_key_index(o, k);
    lemma_merged_field(b, o, 0, k);
}

// ---------------------------------------------------------------------------
// What overrides by a path do

/// Keys with dots between them, from the `i`-th on.
pub open spec fn path_text(keys: Seq<Text>, i: int) -> Text
    decreases keys.len() - i,
{
    if 0 <= i < keys.len() - 1 {
        keys[i] + seq!['.'] + path_text(keys, i + 1)
    } else if i == keys.len() - 1 {
        keys[i]
    } else {
        seq![]
    }
}

/// A path is split into its keys, where no key has a dot in it.
proof fn lemma_split_path(keys: Seq<Text>, i: int)
    requires
        0 <= i < keys.len(),
        forall|j: int| 0 <= j < keys.len() ==> !(#[trigger] keys[j]).contains('.'),
    ensures
        split(path_text(keys, i), '.') == keys.subrange(i, keys.len() as int),
        path_text(keys, i).contains('.') <==> i < keys.len() - 1,
    decreases keys.len() - i,
{
    let t = path_text(keys, i);
    let k = keys[i];
    assert(!k.contains('.'));
    lemma_find_from(t, '.', 0);
    if i < keys.len() - 1 {
        lemma_split_path(keys, i + 1);
        let rest = path_text(keys, i + 1);
        let n = k.len() as int;
        assert(t[n] == '.');
        assert forall|j: int| 0 <= j < n implies t[j] != '.' by {
            assert(t[j] == k[j]);
            assert(k.contains(k[j]));
        }
        assert(find(t, '.') == Some(n));
        assert(t.subrange(0, n) =~= k);
        assert(t.subrange(n + 1, t.len() as int) =~= rest);
        assert(seq![k] + keys.subrange(i + 1, keys.len() as int) =~= keys.subrange(
            i,
            keys.len() as int,
        ));
    } else {
        assert(t == k);
        assert(find(t, '.') is None) by {
            if find(t, '.') is Some {
                assert(t.contains('.'));
            }
        }
        assert(seq![k] =~= keys.subrange(i, keys.len() as int));
    }
}

/// What a path leads to, told by its first step.
proof fn lemma_at_path(v: Val, keys: Seq<Text>, i: int)
    requires
        0 <= i < keys.len(),
    ensures
        at_path(v, keys, i) == match v {
            Val::Object(m) => match entry(m, keys[i]) {
                Some(c) => at_path(c, keys, i + 1),
                None => None,
            },
            _ => None,
        },
{
}

/// What stands under a key in a value without a key twice has none twice either.
proof fn lemma_entry_well_keyed(m: Entries, k: Text)
    requires
        well_keyed(Val::Object(m)),
    ensures
        entry(m, k) matches Some(c) ==> well_keyed(c),
{
    lemma_key_index(m, k);
    if has_key(m, k) {
        lemma_entry_keyed(m, 0, key_index(m, k));
    }
}

/// What a path led to is gone once it is taken out.
pub proof fn a_path_taken_out_leads_nowhere(v: Val, keys: Seq<Text>, i: int)
    requires
        0 <= i < keys.len(),
        well_keyed(v),
    ensures
        at_path(unset_at(v, keys, i), keys, i) is None,
    decreases keys.len() - i,
{
    let u = unset_at(v, keys, i);
    lemma_at_path(u, keys, i);
    if let Val::Object(m) = v {
        if i == keys.len() - 1 {
            lemma_without(m, keys[i], keys[i]);
        } else if let Some(c) = entry(m, keys[i]) {
            lemma_entry_well_keyed(m, keys[i]);
            a_path_taken_out_leads_nowhere(c, keys, i + 1);
            lemma_put(m, keys[i], unset_at(c, keys, i + 1), keys[i]);
        }
    }
}

/// What the way to a path that is taken out leads over stays what it is, but for
/// the one entry at the end: the object there has its other entries in their
/// order, and every path that turns off leads to what it led to before.
pub proof fn a_path_taken_out_takes_nothing_else(
    v: Val,
    keys: Seq<Text>,
    i: int,
    other: Seq<Text>,
    j: int,
)
    requires
        0 <= i <= j < keys.len(),
        well_keyed(v),
        j < other.len(),
        forall|h: int| i <= h < j ==> other[h] == keys[h],
        other[j] != keys[j],
    ensures
        at_path(unset_at(v, keys, i), other, i) == at_path(v, other, i),
    decreases keys.len() - i,
{
    let u = unset_at(v, keys, i);
    lemma_at_path(u, other, i);
    lemma_at_path(v, other, i);
    if let Val::Object(m) = v {
        if i == keys.len() - 1 {
            lemma_without(m, keys[i], other[i]);
        } else if let Some(c) = entry(m, keys[i]) {
            lemma_entry_well_keyed(m, keys[i]);
            lemma_put(m, keys[i], unset_at(c, keys, i + 1), other[i]);
            if i < j {
                a_path_taken_out_takes_nothing_else(c, keys, i + 1, other, j);
            }
        }
    }
}

/// The object that a path to be taken out ends in has the same entries in the
/// same order as before, but for the one that is taken out.
pub proof fn the_rest_keeps_its_order(v: Val, keys: Seq<Text>, i: int, way: Seq<Text>)
    requires
        0 <= i < keys.len(),
        well_keyed(v),
        way == keys.drop_last(),
    ensures
        match at_path(v, way, i) {
            Some(Val::Object(m)) => at_path(unset_at(v, keys, i), way, i) matches Some(
                Val::Object(r),
            ) && if has_key(m, keys.last()) {
                exists|p: int|
                    0 <= p < m.len() && (#[trigger] m[p]).0 == keys.last() && r == m.remove(p)
            } else {
                r == m
            },
            x => at_path(unset_at(v, keys, i), way, i) == x,
        },
    decreases keys.len() - i,
{
    let u = unset_at(v, keys, i);
    if i == keys.len() - 1 {
        if let Val::Object(m) = v {
            lemma_key_index(m, keys[i]);
            if has_key(m, keys[i]) {
                let p = key_index(m, keys[i]);
                assert(m[p].0 == keys.last());
            }
        }
    } else {
        lemma_at_path(u, way, i);
        lemma_at_path(v, way, i);
        assert(way[i] == keys[i]);
        if let Val::Object(m) = v {
            if let Some(c) = entry(m, keys[i]) {
                lemma_entry_well_keyed(m, keys[i]);
                lemma_put(m, keys[i], unset_at(c, keys, i + 1), keys[i]);
                the_rest_keeps_its_order(c, keys, i + 1, way);
            }
        }
    }
}

/// An override that takes out a path, written as a minus sign and keys with dots
/// between them: the path leads nowhere, and every path that turns off from it
/// leads to what it led to before.
pub proof fn an_override_takes_out_a_path(
    b: Entries,
    keys: Seq<Text>,
    x: Val,
    other: Seq<Text>,
    j: int,
)
    requires
        keys.len() > 0,
        well_keyed(Val::Object(b)),
        forall|h: int| 0 <= h < keys.len() ==> !(#[trigger] keys[h]).contains('.'),
    ensures
        ({
            let over = Val::Object(seq![(seq!['-'] + path_text(keys, 0), x)]);
            let r = overridden(Val::Object(b), over);
            &&& r is Object
            &&& at_path(r, keys, 0) is None
            &&& 0 <= j < keys.len() && j < other.len() && other[j] != keys[j] && (forall|h: int|
                0 <= h < j ==> other[h] == keys[h]) ==> at_path(r, other, 0) == at_path(
                Val::Object(b),
                other,
                0,
            )
        }),
{
    let path = path_text(keys, 0);
    let k = seq!['-'] + path;
    let o: Entries = seq![(k, x)];
    let v = Val::Object(b);
    assert(k.subrange(1, k.len() as int) =~= path);
    reveal_with_fuel(all_removed, 2);
    reveal_with_fuel(all_merged, 2);
    lemma_split_path(keys, 0);
    assert(keys.subrange(0, keys.len() as int) =~= keys);
    let r = overridden(v, Val::Object(o));
    assert(field_removed(v, path) == unset_at(v, keys, 0)) by {
        if keys.len() == 1 {
            assert(path == keys[0]);
        }
    }
    assert(r == unset_at(v, keys, 0));
    a_path_taken_out_leads_nowhere(v, keys, 0);
    if 0 <= j < keys.len() && j < other.len() && other[j] != keys[j] && (forall|h: int|
        0 <= h < j ==> other[h] == keys[h]) {
        a_path_taken_out_takes_nothing_else(v, keys, 0, other, j);
    }
}

/// A path that turns off from one that is set leads to what it led to before.
pub proof fn a_path_set_changes_no_other(
    m: Entries,
    keys: Seq<Text>,
    i: int,
    new: Val,
    other: Seq<Text>,
    j: int,
)
    requires
        0 <= i <= j < keys.len(),
        j < other.len(),
        forall|h: int| i <= h < j ==> other[h] == keys[h],
        other[j] != keys[j],
    ensures
        at_path(set_at(Val::Object(m), keys, i, new), other, i) == at_path(Val::Object(m), other, i),
    decreases keys.len() - i,
{
    let v = Val::Object(m);
    let u = set_at(v, keys, i, new);
    lemma_at_path(u, other, i);
    lemma_at_path(v, other, i);
    if i == keys.len() - 1 {
        lemma_put(m, keys[i], new, other[i]);
    } else {
        let none: Entries = seq![];
        let c: Entries = match entry(m, keys[i]) {
            Some(Val::Object(c)) => c,
            _ => none,
        };
        lemma_put(m, keys[i], set_at(Val::Object(c), keys, i + 1, new), other[i]);
        if i < j {
            a_path_set_changes_no_other(c, keys, i + 1, new, other, j);
            lemma_at_path(Val::Object(none), other, i + 1);
            lemma_key_index(none, other[i + 1]);
            if let Some(x) = entry(m, keys[i]) {
                lemma_at_path(x, other, i + 1);
            }
        }
    }
}

/// An override of a path, written as keys with dots between them, of which there
/// is at least one: the path leads to the new value, which replaces what was
/// there, and every path that turns off from it leads to what it led to before.
pub proof fn an_override_sets_a_path(
    b: Entries,
    keys: Seq<Text>,
    x: Val,
    other: Seq<Text>,
    j: int,
)
    requires
        keys.len() > 1,
        !is_removal(path_text(keys, 0)),
        forall|h: int| 0 <= h < keys.len() ==> !(#[trigger] keys[h]).contains('.'),
    ensures
        ({
            let r = overridden(Val::Object(b), Val::Object(seq![(path_text(keys, 0), x)]));
            &&& r is Object
            &&& at_path(r, keys, 0) == Some(x)
            &&& 0 <= j < keys.len() && j < other.len() && other[j] != keys[j] && (forall|h: int|
                0 <= h < j ==> other[h] == keys[h]) ==> at_path(r, other, 0) == at_path(
                Val::Object(b),
                other,
                0,
            )
        }),
{
    let path = path_text(keys, 0);
    let v = Val::Object(b);
    reveal_with_fuel(all_removed, 2);
    reveal_with_fuel(all_merged, 2);
    lemma_split_path(keys, 0);
    assert(keys.subrange(0, keys.len() as int) =~= keys);
    assert(overridden(v, Val::Object(seq![(path, x)])) == set_at(v, keys, 0, x));
    a_path_leads_to_what_was_set(b, keys, 0, x);
    if 0 <= j < keys.len() && j < other.len() && other[j] != keys[j] && (forall|h: int|
        0 <= h < j ==> other[h] == keys[h]) {
        a_path_set_changes_no_other(b, keys, 0, x, other, j);
    }
}

/// An override of a field without a dot lays the new value over what is there:
/// two objects are merged, anything else is replaced.
pub proof fn an_override_is_laid_over_a_field(b: Entries, key: Text, x: Val, other: Text)
    requires
        !key.contains('.'),
        !is_removal(key),
    ensures
        ({
            let r = overridden(Val::Object(b), Val::Object(seq![(key, x)]));
            &&& r is Object
            &&& entry(r->Object_0, key) == Some(
                match entry(b, key) {
                    Some(old) => merged(old, x),
                    None => x,
                },
            )
            &&& other != key ==> entry(r->Object_0, other) == entry(b, other)
        }),
{
    reveal_with_fuel(all_removed, 2);
    reveal_with_fuel(all_merged, 2);
    let new = match entry(b, key) {
        Some(old) => merged(old, x),
        None => x,
    };
    lemma_put(b, key, new, other);
}

/// What is no object replaces, and is replaced by, whatever it is laid over.
pub proof fn what_is_no_object_replaces(base: Val, over: Val)
    requires
        !(base is Object) || !(over is Object),
    ensures
        merged(base, over) == over,
{
}

/// Merging keeps the entries of the base in their order, and puts those that are
/// new behind them.
pub proof fn merging_keeps_the_order(b: Entries, o: Entries, i: int)
    requires
        0 <= i <= o.len(),
    ensures
        ({
            let r = merged_entries(b, o, i);
            &&& r.len() >= b.len()
            &&& forall|j: int| 0 <= j < b.len() ==> (#[trigger] r[j]).0 == b[j].0
        }),
    decreases o.len() - i,
{
    if i < o.len() {
        let v = match entry(b, o[i].0) {
            Some(old) => merged(old, o[i].1),
            None => o[i].1,
        };
        let next = put(b, o[i].0, v);
        lemma_key_index(b, o[i].0);
        merging_keeps_the_order(next, o, i + 1);
        assert forall|j: int| 0 <= j < b.len() implies (#[trigger] merged_entries(b, o, i)[j]).0
            == b[j].0 by {
            assert(next[j].0 == b[j].0);
        }
    }
}

/// Whether two objects have the same under `k`.
pub open spec fn alike(x: Val, y: Val, k: Text) -> bool {
    &&& x is Object && distinct(x->Object_0)
    &&& y is Object && distinct(y->Object_0)
    &&& entry(x->Object_0, k) == entry(y->Object_0, k)
}

/// An override does to a field what it does to the same field of another object.
proof fn lemma_override_alike(x: Val, y: Val, key: Text, v: Val, k: Text)
    requires
        alike(x, y, k),
    ensures
        is_removal(key) ==> alike(
            field_removed(x, key.subrange(1, key.len() as int)),
            field_removed(y, key.subrange(1, key.len() as int)),
            k,
        ),
        !is_removal(key) ==> alike(field_merged(x, key, v), field_merged(y, key, v), k),
{
    let m = x->Object_0;
    let n = y->Object_0;
    if field_of(key) != k {
        lemma_field_stays(m, key, v, k);
        lemma_field_stays(n, key, v, k);
    } else if is_removal(key) {
        let f = key.subrange(1, key.len() as int);
        let keys = split(f, '.');
        if f.contains('.') {
            if keys.len() == 1 {
                lemma_without(m, keys[0], k);
                lemma_without(n, keys[0], k);
            } else if keys.len() > 1 {
                if let Some(c) = entry(m, keys[0]) {
                    let u = unset_at(c, keys, 1);
                    lemma_put(m, k, u, k);
                    lemma_put(n, k, u, k);
                    lemma_put_distinct(m, k, u);
                    lemma_put_distinct(n, k, u);
                }
            }
        } else {
            lemma_without(m, f, k);
            lemma_without(n, f, k);
        }
    } else if key.contains('.') {
        let keys = split(key, '.');
        if keys.len() > 0 {
            let child: Entries = match entry(m, keys[0]) {
                Some(Val::Object(c)) => c,
                _ => seq![],
            };
            let u = if keys.len() == 1 {
                v
            } else {
                set_at(Val::Object(child), keys, 1, v)
            };
            lemma_put(m, k, u, k);
            lemma_put(n, k, u, k);
            lemma_put_distinct(m, k, u);
            lemma_put_distinct(n, k, u);
        }
    } else {
        let u = match entry(m, key) {
            Some(old) => merged(old, v),
            None => v,
        };
        lemma_put(m, k, u, k);
        lemma_put(n, k, u, k);
        lemma_put_distinct(m, k, u);
        lemma_put_distinct(n, k, u);
    }
}

/// Removals do to a field what the one that speaks of it does.
proof fn lemma_removals_apart(x: Val, y: Val, o: Entries, i: int, j: int, k: Text)
    requires
        0 <= i <= o.len(),
        0 <= j < o.len(),
        alike(x, y, k),
        forall|h: int| 0 <= h < o.len() && h != j ==> field_of((#[trigger] o[h]).0) != k,
    ensures
        alike(
            all_removed(x, o, i),
            all_removed(
                y,
                seq![o[j]],
                if i <= j {
                    0
                } else {
                    1
                },
            ),
            k,
        ),
    decreases o.len() - i,
{
    reveal_with_fuel(all_removed, 2);
    let one: Entries = seq![o[j]];
    if i < o.len() {
        let key = o[i].0;
        let next = if is_removal(key) {
            field_removed(x, key.subrange(1, key.len() as int))
        } else {
            x
        };
        if i == j {
            let then = if is_removal(key) {
                field_removed(y, key.subrange(1, key.len() as int))
            } else {
                y
            };
            lemma_override_alike(x, y, key, o[i].1, k);
            lemma_removals_apart(next, then, o, i + 1, j, k);
            assert(all_removed(y, one, 0) == all_removed(then, one, 1));
        } else {
            lemma_field_stays(x->Object_0, key, o[i].1, k);
            lemma_removals_apart(next, y, o, i + 1, j, k);
        }
    }
}

/// The other overrides do to a field what the one that speaks of it does.
proof fn lemma_merges_apart(x: Val, y: Val, o: Entries, i: int, j: int, k: Text)
    requires
        0 <= i <= o.len(),
        0 <= j < o.len(),
        alike(x, y, k),
        forall|h: int| 0 <= h < o.len() && h != j ==> field_of((#[trigger] o[h]).0) != k,
    ensures
        alike(
            all_merged(x, o, i),
            all_merged(
                y,
                seq![o[j]],
                if i <= j {
                    0
                } else {
                    1
                },
            ),
            k,
        ),
    decreases o.len() - i,
{
    reveal_with_fuel(all_merged, 2);
    let one: Entries = seq![o[j]];
    if i < o.len() {
        let key = o[i].0;
        let next = if is_removal(key) {
            x
        } else {
            field_merged(x, key, o[i].1)
        };
        if i == j {
            let then = if is_removal(key) {
                y
            } else {
                field_merged(y, key, o[i].1)
            };
            lemma_override_alike(x, y, key, o[i].1, k);
            lemma_merges_apart(next, then, o, i + 1, j, k);
            assert(all_merged(y, one, 0) == all_merged(then, one, 1));
        } else {
            lemma_field_stays(x->Object_0, key, o[i].1, k);
            lemma_merges_apart(next, y, o, i + 1, j, k);
        }
    }
}

/// Each of several overrides does its work alone: a field that only one of them
/// speaks of comes to what that one by itself makes of it.
pub proof fn each_override_works_alone(b: Entries, o: Entries, j: int, k: Text)
    requires
        distinct(b),
        0 <= j < o.len(),
        forall|h: int| 0 <= h < o.len() && h != j ==> field_of((#[trigger] o[h]).0) != k,
    ensures
        ({
            let r = overridden(Val::Object(b), Val::Object(o));
            let one = overridden(Val::Object(b), Val::Object(seq![o[j]]));
            r is Object && one is Object && entry(r->Object_0, k) == entry(one->Object_0, k)
        }),
{
    let v = Val::Object(b);
    let one: Entries = seq![o[j]];
    lemma_removals_apart(v, v, o, 0, j, k);
    lemma_merges_apart(all_removed(v, o, 0), all_removed(v, one, 0), o, 0, j, k);
}

/// Removals come before everything else, wherever they stand: a field that is
/// both taken out and overridden has the new value alone.
pub proof fn removals_come_first(b: Entries, key: Text, x: Val, y: Val)
    requires
        distinct(b),
        !key.contains('.'),
        !is_removal(key),
    ensures
        ({
            let out = (seq!['-'] + key, x);
            let put_in = (key, y);
            let r = overridden(Val::Object(b), Val::Object(seq![put_in, out]));
            let q = overridden(Val::Object(b), Val::Object(seq![out, put_in]));
            &&& r == q
            &&& r is Object
            &&& entry(r->Object_0, key) == Some(y)
        }),
{
    let k = seq!['-'] + key;
    assert(k.subrange(1, k.len() as int) =~= key);
    reveal_with_fuel(all_removed, 3);
    reveal_with_fuel(all_merged, 3);
    lemma_without(b, key, key);
    lemma_put(without(b, key), key, y, key);
}

} // verus!
