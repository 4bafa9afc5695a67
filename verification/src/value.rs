//! The values of a document, and the ordered map that holds an object.

use compact_str::CompactString;
use indexmap::IndexMap;
use vstd::prelude::*;
use crate::float::{is_float_text, Float};
use crate::number::{integer_text, integer_to_text, numbers_equal, same_number, shown, shown_text};
use crate::text::{owned, same_text, Text};

pub use crate::json::{json_to_scon, scon_to_json};

verus! {

// ---------------------------------------------------------------------------
// The mathematical model

/// What a value is: the keys and strings as text, a number that is not an
/// integer as its decimal text, an object as its entries in order.
#[verifier::ext_equal]
pub enum Val {
    Null,
    Bool(bool),
    Integer(i64),
    Float(Text),
    Str(Text),
    Array(Seq<Val>),
    Object(Seq<(Text, Val)>),
}

/// The entries of an object in order.
pub type Entries = Seq<(Text, Val)>;

/// The position of the first entry with key `k`, or the number of entries.
pub open spec fn key_index<V>(s: Seq<(Text, V)>, k: Text) -> int
    decreases s.len(),
{
    if s.len() == 0 {
        0
    } else {
        let i = key_index(s.drop_last(), k);
        if i < s.len() - 1 {
            i
        } else if s.last().0 == k {
            s.len() - 1
        } else {
            s.len() as int
        }
    }
}

/// The keys of the entries.
pub open spec fn keys<V>(s: Seq<(Text, V)>) -> Seq<Text> {
    Seq::new(s.len(), |i: int| s[i].0)
}

/// Whether there is an entry with key `k`.
pub open spec fn has_key<V>(s: Seq<(Text, V)>, k: Text) -> bool {
    key_index(s, k) < s.len()
}

/// The value under key `k`.
pub open spec fn entry<V>(s: Seq<(Text, V)>, k: Text) -> Option<V> {
    if has_key(s, k) {
        Some(s[key_index(s, k)].1)
    } else {
        None
    }
}

/// The entries with `v` under key `k`: in the place of the entry that had the
/// key, or else at the end.
pub open spec fn put<V>(s: Seq<(Text, V)>, k: Text, v: V) -> Seq<(Text, V)> {
    if has_key(s, k) {
        s.update(key_index(s, k), (k, v))
    } else {
        s.push((k, v))
    }
}

/// The entries without the one with key `k`.
pub open spec fn without<V>(s: Seq<(Text, V)>, k: Text) -> Seq<(Text, V)> {
    if has_key(s, k) {
        s.remove(key_index(s, k))
    } else {
        s
    }
}

/// What `key_index` says, without recursion.
pub proof fn lemma_key_index<V>(s: Seq<(Text, V)>, k: Text)
    ensures
        0 <= key_index(s, k) <= s.len(),
        has_key(s, k) ==> s[key_index(s, k)].0 == k,
        forall|j: int| 0 <= j < key_index(s, k) ==> s[j].0 != k,
    decreases s.len(),
{
    if s.len() > 0 {
        lemma_key_index(s.drop_last(), k);
        assert forall|j: int| 0 <= j < key_index(s, k) implies s[j].0 != k by {
            if j < s.len() - 1 {
                assert(s.drop_last()[j] == s[j]);
            }
        }
    }
}

// ---------------------------------------------------------------------------
// Strings

/// `compact_str::CompactString`, a string that keeps short texts inline.
#[verifier::external_type_specification]
#[verifier::external_body]
pub struct ExCompactString(CompactString);

/// The characters of a `CompactString`.
pub uninterp spec fn compact_text(c: CompactString) -> Seq<char>;

/// `CompactString::from`: a string with the characters of `s`.
#[verifier::external_body]
pub(crate) fn compact(s: &str) -> (r: CompactString)
    ensures
        compact_text(r) == s@,
{
    CompactString::from(s)
}

/// `CompactString::as_str`: the characters of `c`.
#[verifier::external_body]
pub(crate) fn compact_as_str(c: &CompactString) -> (r: &str)
    ensures
        r@ == compact_text(*c),
{
    c.as_str()
}

// ---------------------------------------------------------------------------
// Values

/// A value of a document.
#[derive(Debug)]
pub enum Value {
    Null,
    Bool(bool),
    Integer(i64),
    Float(Float),
    String(CompactString),
    Array(Vec<Value>),
    Object(SconMap),
}

/// An object: its entries, in the order in which their keys came first.
#[verifier::external_body]
#[derive(Debug)]
pub struct SconMap {
    map: IndexMap<CompactString, Value, ahash::RandomState>,
}

/// The entries of a map, in order.
pub uninterp spec fn contents(m: SconMap) -> Seq<(Seq<char>, Val)>;

impl View for SconMap {
    type V = Entries;

    open spec fn view(&self) -> Entries {
        contents(*self)
    }
}

impl View for Value {
    type V = Val;

    open spec fn view(&self) -> Val {
        model(*self)
    }
}

/// What a value is.
pub open spec fn model(v: Value) -> Val
    decreases v,
{
    match v {
        Value::Null => Val::Null,
        Value::Bool(b) => Val::Bool(b),
        Value::Integer(n) => Val::Integer(n),
        Value::Float(t) => Val::Float(t@),
        Value::String(s) => Val::Str(compact_text(s)),
        Value::Array(a) => Val::Array(models(a@)),
        Value::Object(m) => Val::Object(m@),
    }
}

/// What the values of a sequence are.
pub open spec fn models(s: Seq<Value>) -> Seq<Val>
    decreases s,
{
    if s.len() == 0 {
        seq![]
    } else {
        models(s.drop_last()).push(model(s.last()))
    }
}

/// `models` goes item by item.
pub proof fn lemma_models(s: Seq<Value>)
    ensures
        models(s).len() == s.len(),
        forall|i: int| 0 <= i < s.len() ==> models(s)[i] == (#[trigger] s[i])@,
    decreases s.len(),
{
    if s.len() > 0 {
        lemma_models(s.drop_last());
        assert forall|i: int| 0 <= i < s.len() implies models(s)[i] == (#[trigger] s[i])@ by {
            if i < s.len() - 1 {
                assert(s.drop_last()[i] == s[i]);
            }
        }
    }
}

/// One value more.
pub proof fn lemma_models_push(s: Seq<Value>, v: Value)
    ensures
        models(s.push(v)) == models(s).push(v@),
{
    assert(s.push(v).drop_last() =~= s);
}

/// The parts of a value are smaller than the value.
pub proof fn lemma_smaller(v: Val)
    ensures
        v is Array ==> forall|i: int|
            0 <= i < v->Array_0.len() ==> decreases_to!(v => #[trigger] v->Array_0[i]),
        v is Object ==> forall|i: int|
            0 <= i < v->Object_0.len() ==> decreases_to!(v => (#[trigger] v->Object_0[i]).1),
{
    if v is Array {
        assert forall|i: int| 0 <= i < v->Array_0.len() implies decreases_to!(
            v => #[trigger] v->Array_0[i]) by {
            assert(decreases_to!(v => v->Array_0));
            assert(decreases_to!(v->Array_0 => v->Array_0[i]));
        }
    }
    if v is Object {
        assert forall|i: int| 0 <= i < v->Object_0.len() implies decreases_to!(
            v => (#[trigger] v->Object_0[i]).1) by {
            assert(decreases_to!(v => v->Object_0));
            assert(decreases_to!(v->Object_0 => v->Object_0[i]));
            assert(decreases_to!(v->Object_0[i] => v->Object_0[i].1));
        }
    }
}

/// The value of an entry is smaller than the entries.
pub proof fn lemma_entry_smaller(s: Entries, i: int)
    requires
        0 <= i < s.len(),
    ensures
        decreases_to!(s => s[i].1),
{
    assert(decreases_to!(s => s[i]));
    assert(decreases_to!(s[i] => s[i].1));
}

/// An item is smaller than the items.
pub proof fn lemma_item_smaller(s: Seq<Val>, i: int)
    requires
        0 <= i < s.len(),
    ensures
        decreases_to!(s => s[i]),
{
    assert(decreases_to!(s => s[i]));
}

// ---------------------------------------------------------------------------
// Keys

/// Whether no two entries have the same key.
pub open spec fn distinct(o: Entries) -> bool {
    forall|i: int, j: int| 0 <= i < j < o.len() ==> o[i].0 != o[j].0
}

/// Whether no object in `v` has a key twice.
pub open spec fn well_keyed(v: Val) -> bool
    decreases v, 0int,
{
    match v {
        Val::Array(a) => items_well_keyed(a, 0),
        Val::Object(o) => distinct(o) && entries_well_keyed(o, 0),
        _ => true,
    }
}

/// Whether no object in the items from `i` on has a key twice.
pub open spec fn items_well_keyed(a: Seq<Val>, i: int) -> bool
    decreases a, a.len() - i,
{
    if 0 <= i < a.len() {
        well_keyed(a[i]) && items_well_keyed(a, i + 1)
    } else {
        true
    }
}

/// Whether no object in the entries from `i` on has a key twice.
pub open spec fn entries_well_keyed(o: Entries, i: int) -> bool
    decreases o, o.len() - i,
{
    if 0 <= i < o.len() {
        well_keyed(o[i].1) && entries_well_keyed(o, i + 1)
    } else {
        true
    }
}

/// The key of an entry is found.
pub proof fn lemma_entry_found(o: Entries, k: int)
    requires
        0 <= k < o.len(),
    ensures
        has_key(o, o[k].0),
        distinct(o) ==> key_index(o, o[k].0) == k,
        0 <= key_index(o, o[k].0) < o.len(),
{
    lemma_key_index(o, o[k].0);
    if key_index(o, o[k].0) == o.len() {
        assert(o[k].0 != o[k].0);
    }
    if distinct(o) {
        let i = key_index(o, o[k].0);
        if i != k {
            assert(o[i].0 == o[k].0);
        }
    }
}

/// A new key goes behind the others.
pub proof fn lemma_put_new(done: Entries, k: Text, v: Val)
    requires
        forall|j: int| 0 <= j < done.len() ==> (#[trigger] done[j]).0 != k,
    ensures
        put(done, k, v) == done.push((k, v)),
{
    lemma_key_index(done, k);
}

/// One entry put under a key: it is found there, and the others stay.
pub proof fn lemma_put<V>(s: Seq<(Text, V)>, k: Text, v: V, j: Text)
    ensures
        entry(put(s, k, v), k) == Some(v),
        j != k ==> entry(put(s, k, v), j) == entry(s, j),
        has_key(put(s, k, v), j) == (j == k || has_key(s, j)),
{
    let r = put(s, k, v);
    lemma_key_index(s, k);
    lemma_key_index(r, k);
    lemma_key_index(s, j);
    lemma_key_index(r, j);
    let p = if has_key(s, k) {
        key_index(s, k)
    } else {
        s.len() as int
    };
    assert(r[p] == (k, v));
    assert(key_index(r, k) == p) by {
        let q = key_index(r, k);
        if q < p {
            assert(r[q] == s[q]);
        }
        if q > p {
            assert(r[p].0 != k);
        }
    }
    if j != k {
        let a = key_index(s, j);
        let b = key_index(r, j);
        if a < s.len() {
            assert(r[a] == s[a]);
            if b < a {
                if b != p {
                    assert(r[b] == s[b]);
                }
            }
            if b > a {
                assert(r[a].0 != j);
            }
        } else if b < r.len() {
            if b != p {
                assert(r[b] == s[b]);
                assert(s[b].0 != j);
            }
        }
    }
}

/// What is put under a key leaves keys apart.
pub proof fn lemma_put_distinct(d: Entries, k: Text, v: Val)
    requires
        distinct(d),
    ensures
        distinct(put(d, k, v)),
{
    lemma_key_index(d, k);
    let r = put(d, k, v);
    assert forall|i: int, j: int| 0 <= i < j < r.len() implies r[i].0 != r[j].0 by {
        if has_key(d, k) {
            assert(r[i].0 == d[i].0 && r[j].0 == d[j].0);
        } else {
            assert(r[i] == d[i]);
            if j < d.len() {
                assert(r[j] == d[j]);
            }
        }
    }
}

/// The entry with a key taken out: it is gone, and the others stay.
pub proof fn lemma_without(s: Entries, k: Text, j: Text)
    requires
        distinct(s),
    ensures
        !has_key(without(s, k), k),
        j != k ==> entry(without(s, k), j) == entry(s, j),
        distinct(without(s, k)),
{
    let r = without(s, k);
    lemma_key_index(s, k);
    lemma_key_index(r, k);
    lemma_key_index(s, j);
    lemma_key_index(r, j);
    let p = key_index(s, k);
    if has_key(s, k) {
        assert forall|i: int| 0 <= i < r.len() implies #[trigger] r[i] == s[if i < p {
            i
        } else {
            i + 1
        }] by {}
        if has_key(r, k) {
            let q = key_index(r, k);
            assert(r[q].0 == k);
        }
        if j != k {
            let a = key_index(s, j);
            let b = key_index(r, j);
            if a < s.len() {
                let c = if a < p {
                    a
                } else {
                    a - 1
                };
                assert(r[c] == s[a]);
                if b > c {
                    assert(r[c].0 != j);
                }
                if b < c {
                    assert(r[b].0 == j);
                }
            } else if b < r.len() {
                assert(r[b].0 == j);
            }
        }
    }
}

// ---------------------------------------------------------------------------
// The map behind an object

/// `IndexMap::default`: a map without entries.
#[verifier::external_body]
fn map_new() -> (r: SconMap)
    ensures
        contents(r) == Seq::<(Seq<char>, Val)>::empty(),
{
    SconMap { map: IndexMap::default() }
}

/// `IndexMap::len`: the number of entries.
#[verifier::external_body]
fn map_len(m: &SconMap) -> (r: usize)
    ensures
        r == contents(*m).len(),
{
    m.map.len()
}

/// `IndexMap::insert`: puts a value under a key, in the key's place where it
/// has one and at the end where it has none, and hands the old value back.
#[verifier::external_body]
fn map_insert(m: &mut SconMap, k: CompactString, v: Value) -> (r: Option<Value>)
    ensures
        contents(*final(m)) == put(contents(*old(m)), compact_text(k), v@),
        match r {
            Some(o) => entry(contents(*old(m)), compact_text(k)) == Some(o@),
            None => entry(contents(*old(m)), compact_text(k)) is None,
        },
{
    m.map.insert(k, v)
}

/// `IndexMap::get`: the value under a key.
#[verifier::external_body]
fn map_get<'a>(m: &'a SconMap, k: &str) -> (r: Option<&'a Value>)
    ensures
        match r {
            Some(v) => entry(contents(*m), k@) == Some(v@),
            None => entry(contents(*m), k@) is None,
        },
{
    m.map.get(k)
}

/// `IndexMap::get_index`: the entry at a position. No entry before it has its
/// key.
#[verifier::external_body]
fn map_get_index<'a>(m: &'a SconMap, i: usize) -> (r: Option<(&'a CompactString, &'a Value)>)
    ensures
        match r {
            Some((k, v)) => i < contents(*m).len() && compact_text(*k) == contents(*m)[i as int].0
                && v@ == contents(*m)[i as int].1 && key_index(contents(*m), compact_text(*k)) == i,
            None => i >= contents(*m).len(),
        },
{
    m.map.get_index(i)
}

/// `IndexMap::shift_remove`: takes the entry with a key out and leaves the
/// others in order.
#[verifier::external_body]
fn map_shift_remove(m: &mut SconMap, k: &str) -> (r: Option<Value>)
    ensures
        contents(*final(m)) == without(contents(*old(m)), k@),
        match r {
            Some(o) => entry(contents(*old(m)), k@) == Some(o@),
            None => entry(contents(*old(m)), k@) is None,
        },
{
    m.map.shift_remove(k)
}

/// `IndexMap::clear`: takes all entries out.
#[verifier::external_body]
fn map_clear(m: &mut SconMap)
    ensures
        contents(*final(m)) == Seq::<(Seq<char>, Val)>::empty(),
{
    m.map.clear()
}

impl Default for SconMap {
    /// A map without entries.
    fn default() -> (r: SconMap)
        ensures
            r@ == Entries::empty(),
    {
        map_new()
    }
}

impl SconMap {
    /// A map without entries.
    pub fn new() -> (r: SconMap)
        ensures
            r@ == Entries::empty(),
    {
        map_new()
    }

    /// The number of entries.
    pub fn len(&self) -> (r: usize)
        ensures
            r == self@.len(),
    {
        map_len(self)
    }

    /// Whether there is no entry.
    pub fn is_empty(&self) -> (r: bool)
        ensures
            r == (self@.len() == 0),
    {
        map_len(self) == 0
    }

    /// Puts `value` under `key` and gives the value that was there.
    pub fn insert(&mut self, key: CompactString, value: Value) -> (r: Option<Value>)
        ensures
            final(self)@ == put(old(self)@, compact_text(key), value@),
            match r {
                Some(v) => entry(old(self)@, compact_text(key)) == Some(v@),
                None => entry(old(self)@, compact_text(key)) is None,
            },
    {
        map_insert(self, key, value)
    }

    /// The value under `key`.
    pub fn get(&self, key: &str) -> (r: Option<&Value>)
        ensures
            match r {
                Some(v) => entry(self@, key@) == Some(v@),
                None => entry(self@, key@) is None,
            },
    {
        map_get(self, key)
    }

    /// Whether there is an entry with key `key`.
    pub fn contains_key(&self, key: &str) -> (r: bool)
        ensures
            r == has_key(self@, key@),
    {
        map_get(self, key).is_some()
    }

    /// The entry at position `i`.
    pub fn get_index(&self, i: usize) -> (r: Option<(&CompactString, &Value)>)
        ensures
            match r {
                Some((k, v)) => i < self@.len() && compact_text(*k) == self@[i as int].0 && v@
                    == self@[i as int].1 && key_index(self@, compact_text(*k)) == i,
                None => i >= self@.len(),
            },
    {
        map_get_index(self, i)
    }

    /// Takes the entry with key `key` out and gives its value; the others stay
    /// in order.
    pub fn shift_remove(&mut self, key: &str) -> (r: Option<Value>)
        ensures
            final(self)@ == without(old(self)@, key@),
            match r {
                Some(v) => entry(old(self)@, key@) == Some(v@),
                None => entry(old(self)@, key@) is None,
            },
    {
        map_shift_remove(self, key)
    }

    /// Takes all entries out.
    pub fn clear(&mut self)
        ensures
            final(self)@ == Entries::empty(),
    {
        map_clear(self)
    }

    /// The key at position `i`.
    pub fn key_at(&self, i: usize) -> (r: &str)
        requires
            i < self@.len(),
        ensures
            r@ == self@[i as int].0,
            key_index(self@, r@) == i,
    {
        match map_get_index(self, i) {
            Some((k, _)) => compact_as_str(k),
            None => "",
        }
    }

    /// The value at position `i`.
    pub fn value_at(&self, i: usize) -> (r: &Value)
        requires
            i < self@.len(),
        ensures
            r@ == self@[i as int].1,
    {
        match map_get_index(self, i) {
            Some((_, v)) => v,
            None => &Value::Null,
        }
    }
}

// ---------------------------------------------------------------------------
// What every value keeps to

/// Whether every number in `v` that is no integer is the text of a float.
pub open spec fn holds_floats(v: Val) -> bool
    decreases v, 0int,
{
    match v {
        Val::Float(t) => is_float_text(t),
        Val::Array(a) => items_hold_floats(a, 0),
        Val::Object(o) => entries_hold_floats(o, 0),
        _ => true,
    }
}

/// Whether every such number in the items from `i` on is the text of a float.
pub open spec fn items_hold_floats(a: Seq<Val>, i: int) -> bool
    decreases a, a.len() - i,
{
    if 0 <= i < a.len() {
        holds_floats(a[i]) && items_hold_floats(a, i + 1)
    } else {
        true
    }
}

/// Whether every such number in the entries from `i` on is the text of a float.
pub open spec fn entries_hold_floats(o: Entries, i: int) -> bool
    decreases o, o.len() - i,
{
    if 0 <= i < o.len() {
        holds_floats(o[i].1) && entries_hold_floats(o, i + 1)
    } else {
        true
    }
}

/// What holds of every value: no object in it has a key twice, and its numbers
/// that are no integers are floats.
pub fn values_are_sound(v: &Value)
    ensures
        well_keyed(v@),
        holds_floats(v@),
    decreases v@,
{
    match v {
        Value::Float(f) => {
            let _ = f.as_str();
        },
        Value::Array(a) => {
            assert(decreases_to!(v@ => v@->Array_0));
            proof {
                lemma_models(a@);
            }
            let mut i: usize = a.len();
            while i > 0
                invariant
                    i <= a@.len() == models(a@).len(),
                    decreases_to!(v@ => models(a@)),
                    forall|j: int| 0 <= j < a@.len() ==> models(a@)[j] == (#[trigger] a@[j])@,
                    items_well_keyed(models(a@), i as int),
                    items_hold_floats(models(a@), i as int),
                decreases i,
            {
                i -= 1;
                proof {
                    lemma_item_smaller(models(a@), i as int);
                    assert(a@[i as int]@ == models(a@)[i as int]);
                }
                values_are_sound(&a[i]);
            }
        },
        Value::Object(o) => {
            assert(decreases_to!(v@ => v@->Object_0));
            let n: usize = o.len();
            let mut i: usize = n;
            while i > 0
                invariant
                    i <= n == o@.len(),
                    decreases_to!(v@ => o@),
                    forall|j: int| i <= j < n ==> key_index(o@, (#[trigger] o@[j]).0) == j,
                    entries_well_keyed(o@, i as int),
                    entries_hold_floats(o@, i as int),
                decreases i,
            {
                i -= 1;
                let _ = o.key_at(i);
                proof {
                    lemma_entry_smaller(o@, i as int);
                    assert(key_index(o@, o@[i as int].0) == i);
                }
                values_are_sound(o.value_at(i));
            }
            assert(distinct(o@)) by {
                assert forall|i: int, j: int| 0 <= i < j < o@.len() implies o@[i].0 != o@[j].0 by {
                    assert(key_index(o@, o@[i].0) == i);
                    assert(key_index(o@, o@[j].0) == j);
                }
            }
        },
        _ => {},
    }
}

// ---------------------------------------------------------------------------
// Copies

impl Clone for SconMap {
    fn clone(&self) -> (r: SconMap)
        ensures
            r@ == self@,
    {
        copy_map(self)
    }
}

impl Clone for Value {
    fn clone(&self) -> (r: Value)
        ensures
            r@ == self@,
    {
        copy_value(self)
    }
}

/// A copy of a value.
fn copy_value(v: &Value) -> (r: Value)
    ensures
        r@ == v@,
    decreases v@,
{
    match v {
        Value::Null => Value::Null,
        Value::Bool(b) => Value::Bool(*b),
        Value::Integer(n) => Value::Integer(*n),
        Value::Float(t) => Value::Float(t.clone()),
        Value::String(s) => Value::String(compact(compact_as_str(s))),
        Value::Array(a) => {
            let mut items: Vec<Value> = Vec::new();
            let mut i: usize = 0;
            proof {
                lemma_models(a@);
                lemma_smaller(v@);
            }
            while i < a.len()
                invariant
                    i <= a@.len(),
                    v@ == Val::Array(models(a@)),
                    models(a@).len() == a@.len(),
                    forall|j: int| 0 <= j < a@.len() ==> models(a@)[j] == (#[trigger] a@[j])@,
                    forall|j: int|
                        0 <= j < models(a@).len() ==> decreases_to!(v@ => #[trigger] v@->Array_0[j]),
                    models(items@) == models(a@).subrange(0, i as int),
                decreases a@.len() - i,
            {
                assert(a@[i as int]@ == v@->Array_0[i as int]);
                let item = copy_value(&a[i]);
                let ghost before = items@;
                items.push(item);
                assert(items@.drop_last() =~= before);
                i += 1;
            }
            assert(models(a@).subrange(0, i as int) =~= models(a@));
            Value::Array(items)
        },
        Value::Object(m) => {
            assert(decreases_to!(v@ => v@->Object_0));
            Value::Object(copy_map(m))
        },
    }
}

/// A copy of a map.
fn copy_map(m: &SconMap) -> (r: SconMap)
    ensures
        r@ == m@,
    decreases m@,
{
    let mut out: SconMap = SconMap::new();
    let mut i: usize = 0;
    let n: usize = m.len();
    while i < n
        invariant
            i <= n == m@.len(),
            out@ == m@.subrange(0, i as int),
        decreases n - i,
    {
        let k = m.key_at(i);
        let v = m.value_at(i);
        proof {
            lemma_entry_smaller(m@, i as int);
            lemma_key_index(m@, k@);
            lemma_key_index(out@, k@);
        }
        let v2 = copy_value(v);
        out.insert(compact(k), v2);
        assert(m@.subrange(0, i + 1) =~= m@.subrange(0, i as int).push(m@[i as int]));
        i += 1;
    }
    assert(m@.subrange(0, n as int) =~= m@);
    out
}

// ---------------------------------------------------------------------------
// Equality

/// Whether two values are equal: numbers that are not integers by the number
/// that they stand for, objects whatever the order of their entries.
pub open spec fn val_eq(a: Val, b: Val) -> bool
    decreases a, 0nat,
{
    match (a, b) {
        (Val::Null, Val::Null) => true,
        (Val::Bool(x), Val::Bool(y)) => x == y,
        (Val::Integer(x), Val::Integer(y)) => x == y,
        (Val::Float(x), Val::Float(y)) => same_number(x, y),
        (Val::Str(x), Val::Str(y)) => x == y,
        (Val::Array(x), Val::Array(y)) => x.len() == y.len() && items_eq(x, y, 0),
        (Val::Object(x), Val::Object(y)) => x.len() == y.len() && entries_in(x, y, 0),
        _ => false,
    }
}

/// Whether the items of `x` from `i` on equal those of `y`.
pub open spec fn items_eq(x: Seq<Val>, y: Seq<Val>, i: int) -> bool
    decreases x, x.len() - i,
{
    if 0 <= i < x.len() {
        val_eq(x[i], y[i]) && items_eq(x, y, i + 1)
    } else {
        true
    }
}

/// Whether each entry of `x` from `i` on has its equal in `y`.
pub open spec fn entries_in(x: Entries, y: Entries, i: int) -> bool
    decreases x, x.len() - i,
{
    if 0 <= i < x.len() {
        (match entry(y, x[i].0) {
            Some(v) => val_eq(x[i].1, v),
            None => false,
        }) && entries_in(x, y, i + 1)
    } else {
        true
    }
}

impl PartialEq for Value {
    fn eq(&self, other: &Value) -> (r: bool) {
        values_equal(self, other)
    }
}

impl vstd::std_specs::cmp::PartialEqSpecImpl for Value {
    open spec fn obeys_eq_spec() -> bool {
        true
    }

    open spec fn eq_spec(&self, other: &Value) -> bool {
        val_eq(self@, other@)
    }
}

/// Whether two values are equal.
pub fn values_equal(a: &Value, b: &Value) -> (r: bool)
    ensures
        r == val_eq(a@, b@),
    decreases a@,
{
    match (a, b) {
        (Value::Null, Value::Null) => true,
        (Value::Bool(x), Value::Bool(y)) => *x == *y,
        (Value::Integer(x), Value::Integer(y)) => *x == *y,
        (Value::Float(x), Value::Float(y)) => numbers_equal(x.as_str(), y.as_str()),
        (Value::String(x), Value::String(y)) => same_text(compact_as_str(x), compact_as_str(y)),
        (Value::Array(x), Value::Array(y)) => {
            assert(decreases_to!(a@ => a@->Array_0));
            proof {
                lemma_models(x@);
                lemma_models(y@);
            }
            if x.len() != y.len() {
                return false;
            }
            let n: usize = x.len();
            let mut i: usize = 0;
            while i < n
                invariant
                    i <= n == x@.len() == y@.len(),
                    a@ == Val::Array(models(x@)),
                    decreases_to!(a@ => models(x@)),
                    models(x@).len() == n,
                    models(y@).len() == n,
                    forall|j: int| 0 <= j < n ==> models(x@)[j] == (#[trigger] x@[j])@,
                    forall|j: int| 0 <= j < n ==> models(y@)[j] == (#[trigger] y@[j])@,
                    items_eq(models(x@), models(y@), 0) == items_eq(models(x@), models(y@), i as int),
                    val_eq(a@, b@) == items_eq(models(x@), models(y@), 0),
                decreases n - i,
            {
                proof {
                    lemma_item_smaller(models(x@), i as int);
                    assert(x@[i as int]@ == models(x@)[i as int]);
                    assert(y@[i as int]@ == models(y@)[i as int]);
                }
                if !values_equal(&x[i], &y[i]) {
                    return false;
                }
                i += 1;
            }
            true
        },
        (Value::Object(x), Value::Object(y)) => {
            assert(decreases_to!(a@ => a@->Object_0));
            maps_equal(x, y)
        },
        _ => false,
    }
}

/// Whether two maps have equal entries, whatever their order.
fn maps_equal(x: &SconMap, y: &SconMap) -> (r: bool)
    ensures
        r == (x@.len() == y@.len() && entries_in(x@, y@, 0)),
    decreases x@,
{
    if x.len() != y.len() {
        return false;
    }
    let n: usize = x.len();
    let mut i: usize = 0;
    while i < n
        invariant
            i <= n == x@.len() == y@.len(),
            entries_in(x@, y@, 0) == entries_in(x@, y@, i as int),
        decreases n - i,
    {
        proof {
            lemma_entry_smaller(x@, i as int);
        }
        match y.get(x.key_at(i)) {
            Some(v) => {
                if !values_equal(x.value_at(i), v) {
                    return false;
                }
            },
            None => {
                return false;
            },
        }
        i += 1;
    }
    true
}

/// As many keys as another has, all of them among its keys, are its keys.
proof fn lemma_same_keys(x: Entries, y: Entries, j: int)
    requires
        x.len() == y.len(),
        distinct(x),
        distinct(y),
        forall|i: int| 0 <= i < x.len() ==> has_key(y, (#[trigger] x[i]).0),
        0 <= j < y.len(),
    ensures
        has_key(x, y[j].0),
{
    let a = keys(x);
    let b = keys(y);
    assert(a.no_duplicates()) by {
        assert forall|i: int, k: int| 0 <= i < a.len() && 0 <= k < a.len() && i != k implies a[i]
            != a[k] by {
            assert(x[i].0 != x[k].0);
        }
    }
    assert(b.no_duplicates()) by {
        assert forall|i: int, k: int| 0 <= i < b.len() && 0 <= k < b.len() && i != k implies b[i]
            != b[k] by {
            assert(y[i].0 != y[k].0);
        }
    }
    a.unique_seq_to_set();
    b.unique_seq_to_set();
    assert(a.to_set().subset_of(b.to_set())) by {
        assert forall|t: Text| a.to_set().contains(t) implies b.to_set().contains(t) by {
            let i = choose|i: int| 0 <= i < a.len() && a[i] == t;
            assert(has_key(y, x[i].0));
            lemma_key_index(y, t);
            assert(b[key_index(y, t)] == t);
        }
    }
    vstd::set_lib::lemma_subset_equality(a.to_set(), b.to_set());
    assert(b[j] == y[j].0);
    assert(b.to_set().contains(y[j].0));
    assert(a.to_set().contains(y[j].0));
    let i = choose|i: int| 0 <= i < a.len() && a[i] == y[j].0;
    lemma_entry_found(x, i);
}

/// What `entries_in` says of an entry.
pub proof fn lemma_entry_in(x: Entries, y: Entries, i: int, k: int)
    requires
        entries_in(x, y, i),
        0 <= i <= k < x.len(),
    ensures
        has_key(y, x[k].0),
        val_eq(x[k].1, entry(y, x[k].0)->0),
    decreases k - i,
{
    if i < k {
        lemma_entry_in(x, y, i + 1, k);
    }
}

/// Of two equal values each equals the other.
pub proof fn equality_goes_both_ways(a: Val, b: Val)
    requires
        well_keyed(a),
        well_keyed(b),
        val_eq(a, b),
    ensures
        val_eq(b, a),
    decreases a, 0int,
{
    match (a, b) {
        (Val::Array(x), Val::Array(y)) => {
            assert(decreases_to!(a => x));
            lemma_items_both_ways(x, y, 0);
        },
        (Val::Object(x), Val::Object(y)) => {
            assert(decreases_to!(a => x));
            lemma_entries_both_ways(x, y, 0);
        },
        _ => {},
    }
}

/// Of equal items each equals the other.
proof fn lemma_items_both_ways(x: Seq<Val>, y: Seq<Val>, i: int)
    requires
        x.len() == y.len(),
        0 <= i <= x.len(),
        items_well_keyed(x, i),
        items_well_keyed(y, i),
        items_eq(x, y, i),
    ensures
        items_eq(y, x, i),
    decreases x, x.len() - i,
{
    if i < x.len() {
        lemma_item_smaller(x, i);
        equality_goes_both_ways(x[i], y[i]);
        lemma_items_both_ways(x, y, i + 1);
    }
}

/// Of equal entries each equals the other.
proof fn lemma_entries_both_ways(x: Entries, y: Entries, j: int)
    requires
        x.len() == y.len(),
        0 <= j <= y.len(),
        distinct(x),
        distinct(y),
        entries_well_keyed(x, 0),
        entries_well_keyed(y, 0),
        entries_in(x, y, 0),
    ensures
        entries_in(y, x, j),
    decreases x, y.len() - j,
{
    if j < y.len() {
        assert forall|i: int| 0 <= i < x.len() implies has_key(y, (#[trigger] x[i]).0) by {
            lemma_entry_in(x, y, 0, i);
        }
        lemma_same_keys(x, y, j);
        lemma_key_index(x, y[j].0);
        let i = key_index(x, y[j].0);
        lemma_entry_in(x, y, 0, i);
        lemma_entry_found(y, j);
        lemma_entry_keyed(x, 0, i);
        lemma_entry_keyed(y, 0, j);
        lemma_entry_smaller(x, i);
        equality_goes_both_ways(x[i].1, y[j].1);
        lemma_entries_both_ways(x, y, j + 1);
    }
}

/// No object in an entry has a key twice.
pub proof fn lemma_entry_keyed(o: Entries, i: int, k: int)
    requires
        entries_well_keyed(o, i),
        0 <= i <= k < o.len(),
    ensures
        well_keyed(o[k].1),
    decreases k - i,
{
    if i < k {
        lemma_entry_keyed(o, i + 1, k);
    }
}

// ---------------------------------------------------------------------------
// Kinds of values

/// Whether `v` is neither an array nor an object.
pub open spec fn is_simple(v: Val) -> bool {
    !(v is Array || v is Object)
}

/// The text that shows `v`.
pub open spec fn display(v: Val) -> Text {
    match v {
        Val::Null => "null"@,
        Val::Bool(b) => if b {
            "true"@
        } else {
            "false"@
        },
        Val::Integer(n) => integer_text(n as int),
        Val::Float(t) => shown_text(t),
        Val::Str(s) => s,
        Val::Array(_) => "[Array]"@,
        Val::Object(_) => "[Object]"@,
    }
}

impl Value {
    /// Whether the value is neither an array nor an object.
    pub fn is_primitive(&self) -> (r: bool)
        ensures
            r == is_simple(self@),
    {
        !matches!(self, Value::Array(_) | Value::Object(_))
    }

    /// Whether the value is an array.
    pub fn is_array(&self) -> (r: bool)
        ensures
            r == (self@ is Array),
    {
        matches!(self, Value::Array(_))
    }

    /// Whether the value is an object.
    pub fn is_object(&self) -> (r: bool)
        ensures
            r == (self@ is Object),
    {
        matches!(self, Value::Object(_))
    }

    /// The text of a string.
    pub fn as_str(&self) -> (r: Option<&str>)
        ensures
            match r {
                Some(s) => self@ == Val::Str(s@),
                None => !(self@ is Str),
            },
    {
        match self {
            Value::String(s) => Some(compact_as_str(s)),
            _ => None,
        }
    }

    /// The integer.
    pub fn as_i64(&self) -> (r: Option<i64>)
        ensures
            match r {
                Some(n) => self@ == Val::Integer(n),
                None => !(self@ is Integer),
            },
    {
        match self {
            Value::Integer(n) => Some(*n),
            _ => None,
        }
    }

    /// The truth value.
    pub fn as_bool(&self) -> (r: Option<bool>)
        ensures
            match r {
                Some(b) => self@ == Val::Bool(b),
                None => !(self@ is Bool),
            },
    {
        match self {
            Value::Bool(b) => Some(*b),
            _ => None,
        }
    }

    /// The items of an array.
    pub fn as_array(&self) -> (r: Option<&Vec<Value>>)
        ensures
            match r {
                Some(a) => self@ == Val::Array(models(a@)),
                None => !(self@ is Array),
            },
    {
        match self {
            Value::Array(a) => Some(a),
            _ => None,
        }
    }

    /// The entries of an object.
    pub fn as_object(&self) -> (r: Option<&SconMap>)
        ensures
            match r {
                Some(m) => self@ == Val::Object(m@),
                None => !(self@ is Object),
            },
    {
        match self {
            Value::Object(m) => Some(m),
            _ => None,
        }
    }

    /// The text that shows the value: a primitive as it is, an array or an
    /// object by its kind.
    pub fn to_text(&self) -> (r: String)
        ensures
            r@ == display(self@),
    {
        match self {
            Value::Null => owned("null"),
            Value::Bool(b) => if *b {
                owned("true")
            } else {
                owned("false")
            },
            Value::Integer(n) => integer_to_text(*n as i128),
            Value::Float(t) => shown(t.as_str()),
            Value::String(s) => owned(compact_as_str(s)),
            Value::Array(_) => owned("[Array]"),
            Value::Object(_) => owned("[Object]"),
        }
    }
}

} // verus!
