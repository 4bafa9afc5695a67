//! Reading a document without copying its strings: the values borrow from the
//! document, and from an arena where an escape had to be replaced.

use bumpalo::Bump;
use indexmap::IndexMap;
use vstd::prelude::*;
use crate::decoder::{
    array_lines, came_to, decode_step, decode_text, document, expanded_lines, field, is_item,
    is_minified, item_floor, item_head, item_is_inline, item_of, key_value, leading_key, left,
    list_item, list_lines, more_fields, new_setting, object_lines, row, table_lines, Decoder,
    Setting,
};
use crate::float::Float;
use crate::lines::{
    classify_lines, detect_indent, key_name, key_names, known, line_views, try_array_header,
    ArrayHeader, ParsedLine,
};
use crate::number::{numbers_equal, parse_number, Parsed};
use crate::scan::{
    find_brace_span, find_bracket_close, find_colon, find_quote_close, holds_colon, lemma_pieces,
    pieces, unescape, unescape_part,
};
use crate::schema_registry::SchemaRegistry;
use crate::text::{
    begins, chars_of, has_char, lemma_trim_len, line_list, owned, part, position, same_text, texts,
    trimmed, Text,
};
use crate::tokens::{
    delimited, inline_entries, inline_value, parse_reference, plain_token, primitive, read_to,
    split_pieces, token_is_reference, unquoted,
};
use crate::value::{
    compact_as_str, entries_in, entry, has_key, is_simple, items_eq, key_index, lemma_entry_smaller,
    lemma_item_smaller, lemma_key_index, lemma_models, models, put, val_eq, Entries, Val, Value,
};

verus! {

// ---------------------------------------------------------------------------
// Values that borrow

/// `bumpalo::Bump`, an arena.
#[verifier::external_type_specification]
#[verifier::external_body]
pub struct ExBump<const MIN_ALIGN: usize>(bumpalo::Bump<MIN_ALIGN>);

/// `Bump::alloc_str`: a copy of a string that lives as long as the arena.
#[verifier::external_body]
fn keep<'b>(arena: &'b Bump, s: &str) -> (r: &'b str)
    ensures
        r@ == s@,
{
    arena.alloc_str(s)
}

/// A value of a document that borrows its strings.
#[derive(Debug)]
pub enum BorrowedValue<'a> {
    Null,
    Bool(bool),
    Integer(i64),
    Float(Float),
    String(&'a str),
    Array(Vec<BorrowedValue<'a>>),
    Object(BorrowedMap<'a>),
}

/// An object that borrows its strings.
#[verifier::external_body]
#[derive(Debug)]
pub struct BorrowedMap<'a> {
    map: IndexMap<&'a str, BorrowedValue<'a>, ahash::RandomState>,
}

/// The entries of a map, in order.
pub uninterp spec fn borrowed_contents(m: BorrowedMap) -> Seq<(Seq<char>, Val)>;

impl<'a> View for BorrowedMap<'a> {
    type V = Entries;

    open spec fn view(&self) -> Entries {
        borrowed_contents(*self)
    }
}

impl<'a> View for BorrowedValue<'a> {
    type V = Val;

    open spec fn view(&self) -> Val {
        borrowed_model(*self)
    }
}

/// What a value is.
pub open spec fn borrowed_model(v: BorrowedValue) -> Val
    decreases v,
{
    match v {
        BorrowedValue::Null => Val::Null,
        BorrowedValue::Bool(b) => Val::Bool(b),
        BorrowedValue::Integer(n) => Val::Integer(n),
        BorrowedValue::Float(t) => Val::Float(t@),
        BorrowedValue::String(s) => Val::Str(s@),
        BorrowedValue::Array(a) => Val::Array(borrowed_models(a@)),
        BorrowedValue::Object(m) => Val::Object(m@),
    }
}

/// What the values of a sequence are.
pub open spec fn borrowed_models(s: Seq<BorrowedValue>) -> Seq<Val>
    decreases s,
{
    if s.len() == 0 {
        seq![]
    } else {
        borrowed_models(s.drop_last()).push(borrowed_model(s.last()))
    }
}

/// `borrowed_models` goes item by item.
pub proof fn lemma_borrowed_models(s: Seq<BorrowedValue>)
    ensures
        borrowed_models(s).len() == s.len(),
        forall|i: int| 0 <= i < s.len() ==> borrowed_models(s)[i] == (#[trigger] s[i])@,
    decreases s.len(),
{
    if s.len() > 0 {
        lemma_borrowed_models(s.drop_last());
        assert forall|i: int| 0 <= i < s.len() implies borrowed_models(s)[i] == (
        #[trigger] s[i])@ by {
            if i < s.len() - 1 {
                assert(s.drop_last()[i] == s[i]);
            }
        }
    }
}

/// One value more.
pub proof fn lemma_borrowed_push(s: Seq<BorrowedValue>, v: BorrowedValue)
    ensures
        borrowed_models(s.push(v)) == borrowed_models(s).push(v@),
{
    assert(s.push(v).drop_last() =~= s);
}

/// `IndexMap::default`: a map without entries.
#[verifier::external_body]
fn borrowed_new<'a>() -> (r: BorrowedMap<'a>)
    ensures
        borrowed_contents(r) == Seq::<(Seq<char>, Val)>::empty(),
{
    BorrowedMap { map: IndexMap::default() }
}

/// `IndexMap::len`: the number of entries.
#[verifier::external_body]
fn borrowed_len(m: &BorrowedMap) -> (r: usize)
    ensures
        r == borrowed_contents(*m).len(),
{
    m.map.len()
}

/// `IndexMap::insert`: puts a value under a key, in the key's place where it
/// has one and at the end where it has none.
#[verifier::external_body]
fn borrowed_insert<'a>(m: &mut BorrowedMap<'a>, k: &'a str, v: BorrowedValue<'a>)
    ensures
        borrowed_contents(*final(m)) == put(borrowed_contents(*old(m)), k@, v@),
{
    m.map.insert(k, v);
}

/// `IndexMap::get`: the value under a key.
#[verifier::external_body]
fn borrowed_get<'m, 'a>(m: &'m BorrowedMap<'a>, k: &str) -> (r: Option<&'m BorrowedValue<'a>>)
    ensures
        match r {
            Some(v) => entry(borrowed_contents(*m), k@) == Some(v@),
            None => entry(borrowed_contents(*m), k@) is None,
        },
{
    m.map.get(k)
}

/// `IndexMap::get_index`: the entry at a position. No entry before it has its
/// key.
#[verifier::external_body]
fn borrowed_at<'m, 'a>(m: &'m BorrowedMap<'a>, i: usize) -> (r: Option<
    (&'m &'a str, &'m BorrowedValue<'a>),
>)
    ensures
        match r {
            Some((k, v)) => i < borrowed_contents(*m).len() && borrowed_contents(*m)[i as int] == (
                k@,
                v@,
            ) && key_index(borrowed_contents(*m), k@) == i,
            None => i >= borrowed_contents(*m).len(),
        },
{
    m.map.get_index(i)
}

impl<'a> Default for BorrowedMap<'a> {
    /// A map without entries.
    fn default() -> (r: BorrowedMap<'a>)
        ensures
            r@ == Entries::empty(),
    {
        borrowed_new()
    }
}

impl<'a> BorrowedMap<'a> {
    /// A map without entries.
    pub fn new() -> (r: BorrowedMap<'a>)
        ensures
            r@ == Entries::empty(),
    {
        borrowed_new()
    }

    /// The number of entries.
    pub fn len(&self) -> (r: usize)
        ensures
            r == self@.len(),
    {
        borrowed_len(self)
    }

    /// Whether there is no entry.
    pub fn is_empty(&self) -> (r: bool)
        ensures
            r == (self@.len() == 0),
    {
        borrowed_len(self) == 0
    }

    /// Puts `value` under `key`.
    pub fn insert(&mut self, key: &'a str, value: BorrowedValue<'a>)
        ensures
            final(self)@ == put(old(self)@, key@, value@),
    {
        borrowed_insert(self, key, value)
    }

    /// The value under `key`.
    pub fn get(&self, key: &str) -> (r: Option<&BorrowedValue<'a>>)
        ensures
            match r {
                Some(v) => entry(self@, key@) == Some(v@),
                None => entry(self@, key@) is None,
            },
    {
        borrowed_get(self, key)
    }

    /// Whether there is an entry with key `key`.
    pub fn contains_key(&self, key: &str) -> (r: bool)
        ensures
            r == has_key(self@, key@),
    {
        borrowed_get(self, key).is_some()
    }

    /// The key at position `i`.
    pub fn key_at(&self, i: usize) -> (r: &'a str)
        requires
            i < self@.len(),
        ensures
            r@ == self@[i as int].0,
            key_index(self@, r@) == i,
    {
        match borrowed_at(self, i) {
            Some((k, _)) => *k,
            None => "",
        }
    }

    /// The value at position `i`.
    pub fn value_at(&self, i: usize) -> (r: &BorrowedValue<'a>)
        requires
            i < self@.len(),
        ensures
            r@ == self@[i as int].1,
    {
        match borrowed_at(self, i) {
            Some((_, v)) => v,
            None => &BorrowedValue::Null,
        }
    }
}

impl<'a> BorrowedValue<'a> {
    /// Whether the value is neither an array nor an object.
    pub fn is_primitive(&self) -> (r: bool)
        ensures
            r == is_simple(self@),
    {
        !matches!(self, BorrowedValue::Array(_) | BorrowedValue::Object(_))
    }
}

/// A copy of a value.
fn copy_borrowed<'a>(v: &BorrowedValue<'a>) -> (r: BorrowedValue<'a>)
    ensures
        r@ == v@,
    decreases v@,
{
    match v {
        BorrowedValue::Null => BorrowedValue::Null,
        BorrowedValue::Bool(b) => BorrowedValue::Bool(*b),
        BorrowedValue::Integer(n) => BorrowedValue::Integer(*n),
        BorrowedValue::Float(t) => BorrowedValue::Float(t.clone()),
        BorrowedValue::String(s) => BorrowedValue::String(*s),
        BorrowedValue::Array(a) => {
            assert(decreases_to!(v@ => v@->Array_0));
            let ghost m = borrowed_models(a@);
            proof {
                lemma_borrowed_models(a@);
            }
            let mut items: Vec<BorrowedValue<'a>> = Vec::new();
            let mut i: usize = 0;
            while i < a.len()
                invariant
                    i <= a@.len() == m.len(),
                    m == borrowed_models(a@),
                    decreases_to!(v@ => m),
                    forall|j: int| 0 <= j < a@.len() ==> m[j] == (#[trigger] a@[j])@,
                    borrowed_models(items@) == m.subrange(0, i as int),
                decreases a@.len() - i,
            {
                proof {
                    lemma_item_smaller(m, i as int);
                    assert(a@[i as int]@ == m[i as int]);
                }
                let x = copy_borrowed(&a[i]);
                proof {
                    lemma_borrowed_push(items@, x);
                    assert(m.subrange(0, i + 1) =~= m.subrange(0, i as int).push(x@));
                }
                items.push(x);
                i += 1;
            }
            assert(m.subrange(0, i as int) =~= m);
            BorrowedValue::Array(items)
        },
        BorrowedValue::Object(o) => {
            assert(decreases_to!(v@ => v@->Object_0));
            BorrowedValue::Object(copy_borrowed_map(o))
        },
    }
}

/// A copy of a map.
fn copy_borrowed_map<'a>(m: &BorrowedMap<'a>) -> (r: BorrowedMap<'a>)
    ensures
        r@ == m@,
    decreases m@,
{
    let mut out: BorrowedMap<'a> = BorrowedMap::new();
    let n: usize = m.len();
    let mut i: usize = 0;
    while i < n
        invariant
            i <= n == m@.len(),
            out@ == m@.subrange(0, i as int),
        decreases n - i,
    {
        let k = m.key_at(i);
        proof {
            lemma_entry_smaller(m@, i as int);
            lemma_key_index(m@, k@);
            lemma_key_index(out@, k@);
            assert(m@.subrange(0, i + 1) =~= m@.subrange(0, i as int).push(m@[i as int]));
        }
        let x = copy_borrowed(m.value_at(i));
        out.insert(k, x);
        i += 1;
    }
    assert(m@.subrange(0, n as int) =~= m@);
    out
}

impl<'a> Clone for BorrowedValue<'a> {
    fn clone(&self) -> (r: BorrowedValue<'a>)
        ensures
            r@ == self@,
    {
        copy_borrowed(self)
    }
}

impl<'a> Clone for BorrowedMap<'a> {
    fn clone(&self) -> (r: BorrowedMap<'a>)
        ensures
            r@ == self@,
    {
        copy_borrowed_map(self)
    }
}

/// Whether two values are equal.
fn borrowed_equal<'a>(a: &BorrowedValue<'a>, b: &BorrowedValue<'a>) -> (r: bool)
    ensures
        r == val_eq(a@, b@),
    decreases a@,
{
    match (a, b) {
        (BorrowedValue::Null, BorrowedValue::Null) => true,
        (BorrowedValue::Bool(x), BorrowedValue::Bool(y)) => *x == *y,
        (BorrowedValue::Integer(x), BorrowedValue::Integer(y)) => *x == *y,
        (BorrowedValue::Float(x), BorrowedValue::Float(y)) => numbers_equal(
            x.as_str(),
            y.as_str(),
        ),
        (BorrowedValue::String(x), BorrowedValue::String(y)) => same_text(x, y),
        (BorrowedValue::Array(x), BorrowedValue::Array(y)) => {
            assert(decreases_to!(a@ => a@->Array_0));
            let ghost xs = borrowed_models(x@);
            let ghost ys = borrowed_models(y@);
            proof {
                lemma_borrowed_models(x@);
                lemma_borrowed_models(y@);
            }
            if x.len() != y.len() {
                return false;
            }
            let n: usize = x.len();
            let mut i: usize = 0;
            while i < n
                invariant
                    i <= n == x@.len() == y@.len() == xs.len() == ys.len(),
                    xs == borrowed_models(x@),
                    ys == borrowed_models(y@),
                    decreases_to!(a@ => xs),
                    forall|j: int| 0 <= j < n ==> xs[j] == (#[trigger] x@[j])@,
                    forall|j: int| 0 <= j < n ==> ys[j] == (#[trigger] y@[j])@,
                    val_eq(a@, b@) == items_eq(xs, ys, i as int),
                decreases n - i,
            {
                proof {
                    lemma_item_smaller(xs, i as int);
                    assert(x@[i as int]@ == xs[i as int]);
                    assert(y@[i as int]@ == ys[i as int]);
                }
                if !borrowed_equal(&x[i], &y[i]) {
                    return false;
                }
                i += 1;
            }
            true
        },
        (BorrowedValue::Object(x), BorrowedValue::Object(y)) => {
            assert(decreases_to!(a@ => a@->Object_0));
            if x.len() != y.len() {
                return false;
            }
            let n: usize = x.len();
            let mut i: usize = 0;
            while i < n
                invariant
                    i <= n == x@.len() == y@.len(),
                    decreases_to!(a@ => x@),
                    val_eq(a@, b@) == entries_in(x@, y@, i as int),
                decreases n - i,
            {
                proof {
                    lemma_entry_smaller(x@, i as int);
                }
                match y.get(x.key_at(i)) {
                    Some(w) => {
                        if !borrowed_equal(x.value_at(i), w) {
                            return false;
                        }
                    },
                    None => {
                        return false;
                    },
                }
                i += 1;
            }
            true
        },
        _ => false,
    }
}

impl<'a> PartialEq for BorrowedValue<'a> {
    fn eq(&self, other: &BorrowedValue<'a>) -> (r: bool) {
        borrowed_equal(self, other)
    }
}

impl<'a> vstd::std_specs::cmp::PartialEqSpecImpl for BorrowedValue<'a> {
    open spec fn obeys_eq_spec() -> bool {
        true
    }

    open spec fn eq_spec(&self, other: &BorrowedValue<'a>) -> bool {
        val_eq(self@, other@)
    }
}

/// A value whose strings are kept in the arena.
fn owned_to_borrowed<'b>(arena: &'b Bump, v: &Value) -> (r: BorrowedValue<'b>)
    ensures
        r@ == v@,
    decreases v@,
{
    match v {
        Value::Null => BorrowedValue::Null,
        Value::Bool(b) => BorrowedValue::Bool(*b),
        Value::Integer(n) => BorrowedValue::Integer(*n),
        Value::Float(t) => BorrowedValue::Float(t.clone()),
        Value::String(s) => BorrowedValue::String(keep(arena, compact_as_str(s))),
        Value::Array(a) => {
            assert(decreases_to!(v@ => v@->Array_0));
            let ghost m = models(a@);
            proof {
                lemma_models(a@);
            }
            let mut items: Vec<BorrowedValue<'b>> = Vec::new();
            let mut i: usize = 0;
            while i < a.len()
                invariant
                    i <= a@.len() == m.len(),
                    m == models(a@),
                    decreases_to!(v@ => m),
                    forall|j: int| 0 <= j < a@.len() ==> m[j] == (#[trigger] a@[j])@,
                    borrowed_models(items@) == m.subrange(0, i as int),
                decreases a@.len() - i,
            {
                proof {
                    lemma_item_smaller(m, i as int);
                    assert(a@[i as int]@ == m[i as int]);
                }
                let x = owned_to_borrowed(arena, &a[i]);
                proof {
                    lemma_borrowed_push(items@, x);
                    assert(m.subrange(0, i + 1) =~= m.subrange(0, i as int).push(x@));
                }
                items.push(x);
                i += 1;
            }
            assert(m.subrange(0, i as int) =~= m);
            BorrowedValue::Array(items)
        },
        Value::Object(o) => {
            assert(decreases_to!(v@ => v@->Object_0));
            let mut out: BorrowedMap<'b> = BorrowedMap::new();
            let n: usize = o.len();
            let mut i: usize = 0;
            while i < n
                invariant
                    i <= n == o@.len(),
                    decreases_to!(v@ => o@),
                    out@ == o@.subrange(0, i as int),
                decreases n - i,
            {
                let k = o.key_at(i);
                proof {
                    lemma_entry_smaller(o@, i as int);
                    lemma_key_index(o@, k@);
                    lemma_key_index(out@, k@);
                    assert(o@.subrange(0, i + 1) =~= o@.subrange(0, i as int).push(o@[i as int]));
                }
                let x = owned_to_borrowed(arena, o.value_at(i));
                out.insert(keep(arena, k), x);
                i += 1;
            }
            assert(o@.subrange(0, n as int) =~= o@);
            BorrowedValue::Object(out)
        },
    }
}

// ---------------------------------------------------------------------------
// Reading tokens

/// A key without the quotes around it and without the escapes between them.
fn unquote_borrowed<'a>(arena: &'a Bump, raw: &'a str) -> (r: &'a str)
    ensures
        r@ == key_name(raw@),
{
    let u = trimmed(raw);
    let cs = chars_of(u);
    let n: usize = cs.len();
    if n >= 2 && cs[0] == '"' && cs[n - 1] == '"' {
        unescape_borrowed(arena, part(u, 1, n - 1))
    } else {
        u
    }
}

/// Keys without the quotes around them and without the escapes between them.
fn unquote_fields<'a>(arena: &'a Bump, raw: &Vec<&'a str>) -> (r: Vec<&'a str>)
    ensures
        texts(r@) == key_names(texts(raw@)),
{
    let mut out: Vec<&'a str> = Vec::new();
    let mut i: usize = 0;
    let ghost all = key_names(texts(raw@));
    while i < raw.len()
        invariant
            i <= raw@.len(),
            all == key_names(texts(raw@)),
            texts(out@) == all.subrange(0, i as int),
        decreases raw@.len() - i,
    {
        let ghost before = out@;
        let name = unquote_borrowed(arena, raw[i]);
        out.push(name);
        assert(texts(out@) =~= texts(before).push(name@));
        assert(all.subrange(0, i + 1) =~= all.subrange(0, i as int).push(name@));
        i += 1;
    }
    assert(all.subrange(0, i as int) =~= all);
    out
}

/// A text with its escapes replaced: the text itself where it has none, and
/// else a text in the arena.
fn unescape_borrowed<'a>(arena: &'a Bump, s: &'a str) -> (r: &'a str)
    ensures
        r@ == unescape(s@),
{
    if !has_char(s, '\\') {
        proof {
            lemma_no_escapes(s@);
        }
        return s;
    }
    let cs = chars_of(s);
    let n: usize = cs.len();
    assert(s@.subrange(0, n as int) =~= s@);
    keep(arena, unescape_part(&cs, 0, n).as_str())
}

/// A text without backslashes has no escapes.
proof fn lemma_no_escapes(s: Text)
    requires
        !s.contains('\\'),
    ensures
        unescape(s) == s,
    decreases s.len(),
{
    if s.len() > 0 {
        assert(s[0] != '\\');
        let rest = s.subrange(1, s.len() as int);
        assert(!rest.contains('\\')) by {
            if rest.contains('\\') {
                let i = choose|i: int| 0 <= i < rest.len() && rest[i] == '\\';
                assert(s[i + 1] == '\\');
            }
        }
        lemma_no_escapes(rest);
        assert(seq![s[0]] + rest =~= s);
    } else {
        assert(s =~= seq![]);
    }
}

/// A key without the quotes around it.
fn unquote<'a>(arena: &'a Bump, s: &'a str) -> (r: &'a str)
    ensures
        r@ == unquoted(s@),
{
    let u = trimmed(s);
    let cs = chars_of(u);
    let n: usize = cs.len();
    if n >= 2 && cs[0] == '"' && cs[n - 1] == '"' {
        unescape_borrowed(arena, part(u, 1, n - 1))
    } else {
        u
    }
}

/// What a token that is no reference stands for.
fn parse_plain<'a>(arena: &'a Bump, t: &'a str) -> (r: BorrowedValue<'a>)
    requires
        t@.len() > 0,
    ensures
        r@ == plain_token(t@),
{
    let cs = chars_of(t);
    if cs[0] == '"' {
        match find_quote_close(&cs, 1) {
            Some(k) => {
                return BorrowedValue::String(unescape_borrowed(arena, part(t, 1, k)));
            },
            None => {},
        }
    }
    if same_text(t, "true") {
        return BorrowedValue::Bool(true);
    }
    if same_text(t, "false") {
        return BorrowedValue::Bool(false);
    }
    if same_text(t, "null") {
        return BorrowedValue::Null;
    }
    match parse_number(&cs) {
        Parsed::Whole(n) => BorrowedValue::Integer(n),
        Parsed::Decimal(f) => BorrowedValue::Float(f),
        Parsed::Other => BorrowedValue::String(t),
    }
}

/// What a primitive stands for.
fn parse_primitive<'a>(arena: &'a Bump, reg: &mut SchemaRegistry, token: &'a str) -> (r: BorrowedValue<'a>)
    ensures
        read_to(primitive(old(reg).stores(), old(reg).open(), token@), r@, *old(reg), *final(reg)),
    decreases token@.len(), 2nat, 0nat,
{
    let t = trimmed(token);
    proof {
        lemma_trim_len(token@);
    }
    if t.is_empty() {
        proof {
            reveal_strlit("");
        }
        let r = BorrowedValue::String("");
        assert(r@ == Val::Str(seq![]));
        return r;
    }
    if same_text(t, "[]") {
        let none: Vec<BorrowedValue<'a>> = Vec::new();
        return BorrowedValue::Array(none);
    }
    if same_text(t, "{}") {
        let none: BorrowedMap<'a> = BorrowedMap::new();
        assert(none@ =~= seq![]);
        return BorrowedValue::Object(none);
    }
    if token_is_reference(t) {
        let found = parse_reference(reg, t);
        return owned_to_borrowed(arena, &found);
    }
    parse_plain(arena, t)
}

/// What the pieces of a text stand for.
fn parse_delimited_values<'a>(arena: &'a Bump, reg: &mut SchemaRegistry, x: &'a str, d: char) -> (r: Vec<BorrowedValue<'a>>)
    ensures
        delimited(old(reg).stores(), old(reg).open(), x@, d, 0, seq![]) == (
            borrowed_models(r@),
            final(reg).open(),
        ),
        final(reg).stores() == old(reg).stores(),
    decreases x@.len(), 3nat, 0nat,
{
    let parts = split_pieces(x, d);
    let mut all: Vec<BorrowedValue<'a>> = Vec::new();
    let mut i: usize = 0;
    let ghost s = reg.stores();
    let ghost want = delimited(s, reg.open(), x@, d, 0, seq![]);
    proof {
        lemma_pieces(x@, d);
    }
    while i < parts.len()
        invariant
            i <= parts@.len(),
            reg.stores() == s,
            texts(parts@) == pieces(x@, d),
            forall|j: int| 0 <= j < pieces(x@, d).len() ==> (#[trigger] pieces(x@, d)[j]).len() <= x@.len(),
            want == delimited(s, reg.open(), x@, d, i as int, borrowed_models(all@)),
        decreases parts@.len() - i,
    {
        assert(texts(parts@)[i as int] == pieces(x@, d)[i as int]);
        let v = parse_primitive(arena, reg, parts[i]);
        let ghost before = all@;
        all.push(v);
        assert(all@.drop_last() =~= before);
        i += 1;
    }
    all
}

/// What a value on one line stands for.
fn parse_inline_value<'a>(arena: &'a Bump, reg: &mut SchemaRegistry, input: &'a str) -> (r: BorrowedValue<'a>)
    ensures
        read_to(inline_value(old(reg).stores(), old(reg).open(), input@), r@, *old(reg), *final(reg)),
    decreases input@.len(), 4nat, 0nat,
{
    let t = trimmed(input);
    proof {
        lemma_trim_len(input@);
    }
    let cs = chars_of(t);
    if cs.len() > 0 && cs[0] == '{' {
        match find_brace_span(&cs) {
            Some((a, b)) => {
                return BorrowedValue::Object(parse_inline_object(arena, reg, part(t, a + 1, b)));
            },
            None => {},
        }
    }
    if cs.len() > 0 && cs[0] == '[' {
        match find_bracket_close(&cs, 0) {
            Some(k) => {
                return BorrowedValue::Array(parse_delimited_values(arena, reg, part(t, 1, k), ','));
            },
            None => {},
        }
    }
    parse_primitive(arena, reg, t)
}

/// The entries that the pieces of a text stand for.
fn parse_inline_object<'a>(arena: &'a Bump, reg: &mut SchemaRegistry, x: &'a str) -> (r: BorrowedMap<'a>)
    ensures
        inline_entries(old(reg).stores(), old(reg).open(), x@, 0, seq![]) == (
            r@,
            final(reg).open(),
        ),
        final(reg).stores() == old(reg).stores(),
    decreases x@.len(), 5nat, 0nat,
{
    let parts = split_pieces(x, ',');
    let mut result: BorrowedMap<'a> = BorrowedMap::new();
    let mut i: usize = 0;
    let ghost s = reg.stores();
    let ghost want = inline_entries(s, reg.open(), x@, 0, seq![]);
    assert(result@ =~= seq![]);
    proof {
        lemma_pieces(x@, ',');
    }
    while i < parts.len()
        invariant
            i <= parts@.len(),
            reg.stores() == s,
            texts(parts@) == pieces(x@, ','),
            forall|j: int| 0 <= j < pieces(x@, ',').len() ==> (#[trigger] pieces(x@, ',')[j]).len() <= x@.len(),
            want == inline_entries(s, reg.open(), x@, i as int, result@),
        decreases parts@.len() - i,
    {
        assert(texts(parts@)[i as int] == pieces(x@, ',')[i as int]);
        proof {
            lemma_trim_len(parts@[i as int]@);
        }
        let p = trimmed(parts[i]);
        let ps = chars_of(p);
        let n: usize = ps.len();
        if let Some(k) = find_colon(&ps) {
            let key = unquote(arena, part(p, 0, k));
            let v = parse_inline_value(arena, reg, part(p, k + 1, n));
            result.insert(key, v);
        }
        i += 1;
    }
    result
}

// ---------------------------------------------------------------------------
// Reading lines

/// A map and a position, or a message.
pub open spec fn as_entries(r: Result<(BorrowedMap, usize), String>) -> Result<(Entries, int), Text> {
    match r {
        Ok((m, n)) => Ok((m@, n as int)),
        Err(e) => Err(e@),
    }
}

/// Values and a position, or a message.
pub open spec fn as_items(r: Result<(Vec<BorrowedValue>, usize), String>) -> Result<(Seq<Val>, int), Text> {
    match r {
        Ok((a, n)) => Ok((borrowed_models(a@), n as int)),
        Err(e) => Err(e@),
    }
}

/// A value and a position, or a message.
pub open spec fn as_val(r: Result<(BorrowedValue, usize), String>) -> Result<(Val, int), Text> {
    match r {
        Ok((v, n)) => Ok((v@, n as int)),
        Err(e) => Err(e@),
    }
}

/// A key, its value and a position, or a message.
pub open spec fn as_pair(r: Result<(&str, BorrowedValue, usize), String>) -> Result<(Text, Val, int), Text> {
    match r {
        Ok((k, v, n)) => Ok((k@, v@, n as int)),
        Err(e) => Err(e@),
    }
}

/// A key and its value, if any, and a position, or a message.
pub open spec fn as_field(r: Result<(Option<(&str, BorrowedValue)>, usize), String>) -> Result<
    (Option<(Text, Val)>, int),
    Text,
> {
    match r {
        Ok((Some((k, v)), n)) => Ok((Some((k@, v@)), n as int)),
        Ok((None, n)) => Ok((None, n as int)),
        Err(e) => Err(e@),
    }
}

/// A key and where it ends, or a message.
pub open spec fn as_key(r: Result<(&str, usize), String>) -> Result<(Text, int), Text> {
    match r {
        Ok((k, n)) => Ok((k@, n as int)),
        Err(e) => Err(e@),
    }
}

/// The key that a line begins with, and where it ends.
fn parse_key<'a>(arena: &'a Bump, content: &'a str) -> (r: Result<(&'a str, usize), String>)
    ensures
        as_key(r) == leading_key(content@),
        r matches Ok((_, n)) ==> n <= content@.len(),
{
    let cs = chars_of(content);
    let n: usize = cs.len();
    if n > 0 && cs[0] == '"' {
        match find_quote_close(&cs, 1) {
            None => Err(owned("Unterminated quoted key")),
            Some(q) => {
                if n - q > 1 && cs[q + 1] == ':' {
                    Ok((unescape_borrowed(arena, part(content, 1, q)), q + 2))
                } else {
                    Err(owned("Missing colon after key"))
                }
            },
        }
    } else {
        match position(&cs, ':') {
            Some(k) => Ok((trimmed(part(content, 0, k)), k + 1)),
            None => Err(owned("Missing colon after key")),
        }
    }
}

/// The entries that the lines from `start` on stand for.
fn decode_object<'a>(arena: &'a Bump, reg: &mut SchemaRegistry,
    base: usize,
    ls: &Vec<ParsedLine<'a>>,
    start: usize,
) -> (r: Result<(BorrowedMap<'a>, usize), String>)
    requires
        start <= ls@.len(),
    ensures
        came_to(
            object_lines(
                old(reg).stores(),
                old(reg).open(),
                line_views(ls@),
                base as int,
                start as int,
                seq![],
            ),
            as_entries(r),
            *old(reg),
            *final(reg),
        ),
        r matches Ok((_, n)) ==> start <= n <= ls@.len(),
    decreases left(line_views(ls@), start as int), 4nat,
{
    let mut result: BorrowedMap<'a> = BorrowedMap::new();
    let mut i: usize = start;
    let ghost s = reg.stores();
    let ghost v = line_views(ls@);
    assert(result@ =~= seq![]);
    let ghost want = object_lines(s, reg.open(), v, base as int, start as int, seq![]);
    while i < ls.len()
        invariant
            start <= i <= ls@.len(),
            v == line_views(ls@),
            reg.stores() == s,
            s == old(reg).stores(),
            want == object_lines(s, reg.open(), v, base as int, i as int, result@),
            want == object_lines(
                old(reg).stores(),
                old(reg).open(),
                line_views(ls@),
                base as int,
                start as int,
                seq![],
            ),
        decreases ls@.len() - i,
    {
        assert(v[i as int] == ls@[i as int]@);
        if ls[i].depth < base {
            return Ok((result, i));
        }
        if ls[i].depth > base {
            i += 1;
        } else {
            match decode_field(arena, reg, ls, i, base) {
                Ok((Some((k, x)), next)) => {
                    result.insert(k, x);
                    i = next;
                },
                Ok((None, _)) => {
                    i += 1;
                },
                Err(m) => {
                    return Err(m);
                },
            }
        }
    }
    Ok((result, i))
}

/// The entry that a line stands for with the lines below it, if any.
fn decode_field<'a>(arena: &'a Bump, reg: &mut SchemaRegistry, ls: &Vec<ParsedLine<'a>>, i: usize, base: usize) -> (r: Result<
    (Option<(&'a str, BorrowedValue<'a>)>, usize),
    String,
>)
    requires
        i < ls@.len(),
        ls@[i as int].depth == base,
    ensures
        came_to(
            field(old(reg).stores(), old(reg).open(), line_views(ls@), base as int, i as int),
            as_field(r),
            *old(reg),
            *final(reg),
        ),
        r matches Ok((_, n)) ==> i < n <= ls@.len(),
    decreases left(line_views(ls@), i as int), 3nat,
{
    let total: usize = ls.len();
    let content = ls[i].content;
    assert(line_views(ls@)[i as int] == ls@[i as int]@);
    if let Some(header) = try_array_header(content) {
        if let Some(key) = header.key {
            return match decode_array_from_header(arena, reg, i, base, ls, &header) {
                Ok((v, next)) => Ok((Some((unquote_borrowed(arena, key), v)), next)),
                Err(m) => Err(m),
            };
        }
    }
    match find_colon(&chars_of(content)) {
        Some(k) => match decode_key_value(arena, reg, ls, i, base, k) {
            Ok((key, v, next)) => Ok((Some((key, v)), next)),
            Err(m) => Err(m),
        },
        None => Ok((None, i + 1)),
    }
}

/// The entry that a line stands for, whose key ends at a colon.
fn decode_key_value<'a>(arena: &'a Bump, reg: &mut SchemaRegistry,
    ls: &Vec<ParsedLine<'a>>,
    i: usize,
    base: usize,
    colon: usize,
) -> (r: Result<(&'a str, BorrowedValue<'a>, usize), String>)
    requires
        i < ls@.len(),
        colon < ls@[i as int].content@.len(),
    ensures
        came_to(
            key_value(
                old(reg).stores(),
                old(reg).open(),
                line_views(ls@),
                i as int,
                base as int,
                colon as int,
            ),
            as_pair(r),
            *old(reg),
            *final(reg),
        ),
        r matches Ok((_, _, n)) ==> i < n <= ls@.len(),
    decreases left(line_views(ls@), i as int), 2nat,
{
    let total: usize = ls.len();
    let content = ls[i].content;
    let cs = chars_of(content);
    let n: usize = cs.len();
    let ghost v = line_views(ls@);
    assert(v[i as int] == ls@[i as int]@);
    let found: Result<(&'a str, usize), String> = if cs[0] == '"' {
        parse_key(arena, content)
    } else {
        Ok((trimmed(part(content, 0, colon)), colon + 1))
    };
    match found {
        Err(m) => Err(m),
        Ok((key, end)) => {
            let rest = trimmed(part(content, end, n));
            if !rest.is_empty() {
                let x = parse_inline_value(arena, reg, rest);
                return Ok((key, x, i + 1));
            }
            if i + 1 < total {
                assert(v[i + 1] == ls@[i + 1]@);
                if ls[i + 1].depth > base {
                    if ls[i + 1].depth == base + 1 && item_of(ls[i + 1].content).is_some() {
                        return match decode_list(arena, reg, ls, i + 1, base) {
                            Ok((a, next)) => Ok((key, BorrowedValue::Array(a), next)),
                            Err(m) => Err(m),
                        };
                    }
                    return match decode_object(arena, reg, base + 1, ls, i + 1) {
                        Ok((o, next)) => Ok((key, BorrowedValue::Object(o), next)),
                        Err(m) => Err(m),
                    };
                }
            }
            let none: BorrowedMap<'a> = BorrowedMap::new();
            assert(none@ =~= seq![]);
            Ok((key, BorrowedValue::Object(none), i + 1))
        },
    }
}

/// The items that the lines from `start` on stand for.
fn decode_list<'a>(arena: &'a Bump, reg: &mut SchemaRegistry, ls: &Vec<ParsedLine<'a>>, start: usize, base: usize) -> (r: Result<
    (Vec<BorrowedValue<'a>>, usize),
    String,
>)
    requires
        start < ls@.len(),
        ls@[start as int].depth == base + 1,
        is_item(ls@[start as int].content@),
    ensures
        came_to(
            list_lines(
                old(reg).stores(),
                old(reg).open(),
                line_views(ls@),
                base as int,
                start as int,
                seq![],
            ),
            as_items(r),
            *old(reg),
            *final(reg),
        ),
        r matches Ok((_, n)) ==> start <= n <= ls@.len(),
    decreases left(line_views(ls@), start as int), 4nat,
{
    let mut items: Vec<BorrowedValue<'a>> = Vec::new();
    let mut j: usize = start;
    let child: usize = base + 1;
    let ghost s = reg.stores();
    let ghost v = line_views(ls@);
    let ghost want = list_lines(s, reg.open(), v, base as int, start as int, seq![]);
    while j < ls.len() && ls[j].depth >= child
        invariant
            start <= j <= ls@.len(),
            child == base + 1,
            v == line_views(ls@),
            reg.stores() == s,
            s == old(reg).stores(),
            want == list_lines(s, reg.open(), v, base as int, j as int, borrowed_models(items@)),
            want == list_lines(
                old(reg).stores(),
                old(reg).open(),
                line_views(ls@),
                base as int,
                start as int,
                seq![],
            ),
        decreases ls@.len() - j,
    {
        assert(v[j as int] == ls@[j as int]@);
        let mut next: usize = j + 1;
        if ls[j].depth == child {
            if let Some(item) = item_of(ls[j].content) {
                let x: BorrowedValue<'a> = if item_is_inline(item) {
                    parse_inline_value(arena, reg, item)
                } else {
                    match decode_list_item_object(arena, reg, ls, j, base) {
                        Ok((o, n)) => {
                            next = n;
                            BorrowedValue::Object(o)
                        },
                        Err(m) => {
                            return Err(m);
                        },
                    }
                };
                proof {
                    lemma_borrowed_push(items@, x);
                }
                items.push(x);
            }
        }
        j = next;
    }
    if j < ls.len() {
        assert(v[j as int] == ls@[j as int]@);
    }
    Ok((items, j))
}

/// The array that a header announces.
fn decode_array_from_header<'a>(arena: &'a Bump, reg: &mut SchemaRegistry,
    i: usize,
    base: usize,
    ls: &Vec<ParsedLine<'a>>,
    header: &ArrayHeader<'a>,
) -> (r: Result<(BorrowedValue<'a>, usize), String>)
    requires
        i < ls@.len(),
    ensures
        came_to(
            array_lines(old(reg).stores(), old(reg).open(), line_views(ls@), i as int, base as int, header@),
            as_val(r),
            *old(reg),
            *final(reg),
        ),
        r matches Ok((_, n)) ==> i < n <= ls@.len(),
    decreases left(line_views(ls@), i as int), 1nat,
{
    let total: usize = ls.len();
    assert(line_views(ls@)[i as int] == ls@[i as int]@);
    if header.length == 0 {
        let none: Vec<BorrowedValue<'a>> = Vec::new();
        return Ok((BorrowedValue::Array(none), i + 1));
    }
    if let Some(fields) = &header.fields {
        let (rows, next) = decode_tabular_array(arena, reg, i, base, ls, header.length, fields, header.delimiter);
        return Ok((BorrowedValue::Array(rows), next));
    }
    if let Some(inline) = header.inline_values {
        let values = parse_delimited_values(arena, reg, inline, header.delimiter);
        return Ok((BorrowedValue::Array(values), i + 1));
    }
    match decode_expanded_array(arena, reg, i, base, ls, header.length) {
        Ok((a, next)) => Ok((BorrowedValue::Array(a), next)),
        Err(m) => Err(m),
    }
}

/// A row of a table.
fn make_row<'a>(fields: &Vec<&'a str>, values: &Vec<BorrowedValue<'a>>) -> (r: BorrowedMap<'a>)
    ensures
        r@ == row(texts(fields@), borrowed_models(values@), 0, seq![]),
{
    let mut out: BorrowedMap<'a> = BorrowedMap::new();
    let mut k: usize = 0;
    assert(out@ =~= seq![]);
    proof {
        lemma_borrowed_models(values@);
    }
    while k < fields.len()
        invariant
            k <= fields@.len(),
            borrowed_models(values@).len() == values@.len(),
            forall|j: int| 0 <= j < values@.len() ==> borrowed_models(values@)[j] == (#[trigger] values@[j])@,
            row(texts(fields@), borrowed_models(values@), 0, seq![]) == row(
                texts(fields@),
                borrowed_models(values@),
                k as int,
                out@,
            ),
        decreases fields@.len() - k,
    {
        let v: BorrowedValue<'a> = if k < values.len() {
            values[k].clone()
        } else {
            BorrowedValue::Null
        };
        out.insert(fields[k], v);
        k += 1;
    }
    out
}

/// The rows of a table.
fn decode_tabular_array<'a>(arena: &'a Bump, reg: &mut SchemaRegistry,
    i: usize,
    base: usize,
    ls: &Vec<ParsedLine<'a>>,
    expected: usize,
    fields: &Vec<&'a str>,
    delimiter: char,
) -> (r: (Vec<BorrowedValue<'a>>, usize))
    requires
        i < ls@.len(),
    ensures
        table_lines(
            old(reg).stores(),
            old(reg).open(),
            line_views(ls@),
            base + 1,
            expected as nat,
            key_names(texts(fields@)),
            delimiter,
            i + 1,
            seq![],
        ) == (borrowed_models(r.0@), r.1 as int, final(reg).open()),
        final(reg).stores() == old(reg).stores(),
        i < r.1 <= ls@.len(),
{
    let total: usize = ls.len();
    let names = unquote_fields(arena, fields);
    let mut rows: Vec<BorrowedValue<'a>> = Vec::new();
    let mut j: usize = i + 1;
    let ghost s = reg.stores();
    let ghost v = line_views(ls@);
    let ghost f = key_names(texts(fields@));
    let ghost want = table_lines(
        s,
        reg.open(),
        v,
        base + 1,
        expected as nat,
        f,
        delimiter,
        i + 1,
        seq![],
    );
    while j < ls.len() && rows.len() < expected && ls[j].depth > base && ls[j].depth - 1 == base
        invariant
            i < j <= ls@.len(),
            v == line_views(ls@),
            f == texts(names@),
            reg.stores() == s,
            borrowed_models(rows@).len() == rows@.len(),
            want == table_lines(
                s,
                reg.open(),
                v,
                base + 1,
                expected as nat,
                f,
                delimiter,
                j as int,
                borrowed_models(rows@),
            ),
        decreases ls@.len() - j,
    {
        assert(v[j as int] == ls@[j as int]@);
        let values = parse_delimited_values(arena, reg, ls[j].content, delimiter);
        let new: BorrowedValue<'a> = BorrowedValue::Object(make_row(&names, &values));
        proof {
            lemma_borrowed_push(rows@, new);
        }
        rows.push(new);
        j += 1;
    }
    if j < ls.len() {
        assert(v[j as int] == ls@[j as int]@);
    }
    (rows, j)
}

/// The list items of an array.
fn decode_expanded_array<'a>(arena: &'a Bump, reg: &mut SchemaRegistry,
    i: usize,
    base: usize,
    ls: &Vec<ParsedLine<'a>>,
    expected: usize,
) -> (r: Result<(Vec<BorrowedValue<'a>>, usize), String>)
    requires
        i < ls@.len(),
    ensures
        came_to(
            expanded_lines(
                old(reg).stores(),
                old(reg).open(),
                line_views(ls@),
                base as int,
                expected as nat,
                i + 1,
                seq![],
            ),
            as_items(r),
            *old(reg),
            *final(reg),
        ),
        r matches Ok((_, n)) ==> i < n <= ls@.len(),
    decreases left(line_views(ls@), i + 1), 4nat,
{
    let total: usize = ls.len();
    let mut items: Vec<BorrowedValue<'a>> = Vec::new();
    let mut j: usize = i + 1;
    let ghost s = reg.stores();
    let ghost v = line_views(ls@);
    let ghost want = expanded_lines(
        s,
        reg.open(),
        v,
        base as int,
        expected as nat,
        i + 1,
        seq![],
    );
    while j < ls.len() && items.len() < expected && ls[j].depth > base && ls[j].depth - 1 == base
        invariant
            i < j <= ls@.len(),
            v == line_views(ls@),
            reg.stores() == s,
            s == old(reg).stores(),
            borrowed_models(items@).len() == items@.len(),
            want == expanded_lines(
                s,
                reg.open(),
                v,
                base as int,
                expected as nat,
                j as int,
                borrowed_models(items@),
            ),
            want == expanded_lines(
                old(reg).stores(),
                old(reg).open(),
                line_views(ls@),
                base as int,
                expected as nat,
                i + 1,
                seq![],
            ),
        decreases ls@.len() - j,
    {
        assert(v[j as int] == ls@[j as int]@);
        let mut next: usize = j + 1;
        if let Some(item) = item_of(ls[j].content) {
            let unkeyed: Option<ArrayHeader> = match try_array_header(item) {
                Some(header) if header.key.is_none() => Some(header),
                _ => None,
            };
            let x: BorrowedValue<'a> = if let Some(header) = unkeyed {
                if let Some(inline) = header.inline_values {
                    BorrowedValue::Array(parse_delimited_values(arena, reg, inline, header.delimiter))
                } else {
                    match decode_array_from_header(arena, reg, j, item_floor(ls, j, base), ls, &header) {
                        Ok((a, n)) => {
                            next = n;
                            a
                        },
                        Err(m) => {
                            return Err(m);
                        },
                    }
                }
            } else if item_is_inline(item) {
                parse_inline_value(arena, reg, item)
            } else {
                match decode_list_item_object(arena, reg, ls, j, base) {
                    Ok((o, n)) => {
                        next = n;
                        BorrowedValue::Object(o)
                    },
                    Err(m) => {
                        return Err(m);
                    },
                }
            };
            proof {
                lemma_borrowed_push(items@, x);
            }
            items.push(x);
        }
        j = next;
    }
    if j < ls.len() {
        assert(v[j as int] == ls@[j as int]@);
    }
    Ok((items, j))
}

/// The entry that a list item begins with, if any.
fn decode_item_head<'a>(arena: &'a Bump, reg: &mut SchemaRegistry, ls: &Vec<ParsedLine<'a>>, i: usize, base: usize) -> (r: Result<
    (BorrowedMap<'a>, usize),
    String,
>)
    requires
        i < ls@.len(),
        ls@[i as int].depth == base + 1,
        is_item(ls@[i as int].content@),
    ensures
        came_to(
            item_head(old(reg).stores(), old(reg).open(), line_views(ls@), i as int, base as int),
            as_entries(r),
            *old(reg),
            *final(reg),
        ),
        r matches Ok((_, n)) ==> i < n <= ls@.len(),
    decreases left(line_views(ls@), i as int), 2nat,
{
    let total: usize = ls.len();
    let ghost v = line_views(ls@);
    assert(v[i as int] == ls@[i as int]@);
    let mut out: BorrowedMap<'a> = BorrowedMap::new();
    assert(out@ =~= seq![]);
    let item = match item_of(ls[i].content) {
        Some(x) => x,
        None => "",
    };
    if let Some(header) = try_array_header(item) {
        if let Some(key) = header.key {
            return match decode_array_from_header(arena, reg, i, item_floor(ls, i, base), ls, &header) {
                Ok((x, next)) => {
                    let name = unquote_borrowed(arena, key);
                    out.insert(name, x);
                    assert(out@ =~= seq![(name@, x@)]);
                    Ok((out, next))
                },
                Err(m) => Err(m),
            };
        }
        return Ok((out, i + 1));
    }
    match parse_key(arena, item) {
        Err(m) => Err(m),
        Ok((key, end)) => {
            let n: usize = chars_of(item).len();
            let rest = trimmed(part(item, end, n));
            let mut next: usize = i + 1;
            let mut x: BorrowedValue<'a> = BorrowedValue::Null;
            if !rest.is_empty() {
                x = parse_inline_value(arena, reg, rest);
            } else {
                let mut below = false;
                if i + 1 < total {
                    assert(v[i + 1] == ls@[i + 1]@);
                    below = ls[i + 1].depth > base + 1;
                }
                if below {
                    match decode_object(arena, reg, item_floor(ls, i, base) + 1, ls, i + 1) {
                        Ok((o, k)) => {
                            next = k;
                            x = BorrowedValue::Object(o);
                        },
                        Err(m) => {
                            return Err(m);
                        },
                    }
                } else {
                    let none: BorrowedMap<'a> = BorrowedMap::new();
                    assert(none@ =~= seq![]);
                    x = BorrowedValue::Object(none);
                }
            }
            out.insert(key, x);
            assert(out@ =~= seq![(key@, x@)]);
            Ok((out, next))
        },
    }
}

/// The object that a list item stands for.
fn decode_list_item_object<'a>(arena: &'a Bump, reg: &mut SchemaRegistry,
    ls: &Vec<ParsedLine<'a>>,
    index: usize,
    base: usize,
) -> (r: Result<(BorrowedMap<'a>, usize), String>)
    requires
        index < ls@.len(),
        ls@[index as int].depth == base + 1,
        is_item(ls@[index as int].content@),
    ensures
        came_to(
            list_item(
                old(reg).stores(),
                old(reg).open(),
                line_views(ls@),
                index as int,
                base as int,
            ),
            as_entries(r),
            *old(reg),
            *final(reg),
        ),
        r matches Ok((_, n)) ==> index < n <= ls@.len(),
    decreases left(line_views(ls@), index as int), 3nat,
{
    let ghost v = line_views(ls@);
    let above: usize = base + 1;
    match decode_item_head(arena, reg, ls, index, base) {
        Err(m) => Err(m),
        Ok((head, start)) => {
            let mut result: BorrowedMap<'a> = head;
            let mut i: usize = start;
            let ghost s = reg.stores();
            let ghost want = more_fields(s, reg.open(), v, base + 2, start as int, result@);
            while i < ls.len() && ls[i].depth > above
                invariant
                    index < start <= i <= ls@.len(),
                    v == line_views(ls@),
                    above == base + 1,
                    reg.stores() == s,
                    s == old(reg).stores(),
                    want == more_fields(s, reg.open(), v, base + 2, i as int, result@),
                    want == list_item(
                        old(reg).stores(),
                        old(reg).open(),
                        line_views(ls@),
                        index as int,
                        base as int,
                    ),
                decreases ls@.len() - i,
            {
                assert(v[i as int] == ls@[i as int]@);
                let mut next: usize = i + 1;
                if ls[i].depth - 1 == above {
                    if item_of(ls[i].content).is_some() {
                        return Ok((result, i));
                    }
                    match decode_field(arena, reg, ls, i, above + 1) {
                        Ok((Some((k, x)), n)) => {
                            result.insert(k, x);
                            next = n;
                        },
                        Ok((None, _)) => {},
                        Err(m) => {
                            return Err(m);
                        },
                    }
                }
                i = next;
            }
            if i < ls.len() {
                assert(v[i as int] == ls@[i as int]@);
            }
            Ok((result, i))
        },
    }
}

/// The value that the lines of a document stand for.
fn decode_document<'a>(arena: &'a Bump, reg: &mut SchemaRegistry, ls: &Vec<ParsedLine<'a>>) -> (r: Result<BorrowedValue<'a>, String>)
    ensures
        came_to(
            document(old(reg).stores(), old(reg).open(), line_views(ls@)),
            as_borrowed(r),
            *old(reg),
            *final(reg),
        ),
{
    if ls.len() > 0 {
        assert(line_views(ls@)[0] == ls@[0]@);
    }
    if ls.len() == 0 || (ls.len() == 1 && same_text(ls[0].content, "{}")) {
        let none: BorrowedMap<'a> = BorrowedMap::new();
        assert(none@ =~= seq![]);
        return Ok(BorrowedValue::Object(none));
    }
    if let Some(header) = try_array_header(ls[0].content) {
        if header.key.is_none() {
            return match decode_array_from_header(arena, reg, 0, ls[0].depth, ls, &header) {
                Ok((v, _)) => Ok(v),
                Err(m) => Err(m),
            };
        }
    }
    if ls.len() == 1 && !holds_colon(ls[0].content) {
        return Ok(parse_primitive(arena, reg, ls[0].content));
    }
    match decode_object(arena, reg, 0, ls, 0) {
        Ok((o, _)) => Ok(BorrowedValue::Object(o)),
        Err(m) => Err(m),
    }
}


// ---------------------------------------------------------------------------
// The decoder

/// A value or a message.
pub open spec fn as_borrowed(r: Result<BorrowedValue, String>) -> Result<Val, Text> {
    match r {
        Ok(v) => Ok(v@),
        Err(e) => Err(e@),
    }
}

/// What a decoder comes to whose values borrow. A minified document is read by
/// a decoder of its own that knows nothing; any other document as every decoder
/// reads it.
pub open spec fn borrowed_step(d: Setting, input: Text) -> (Result<Val, Text>, Setting) {
    if is_minified(input) {
        (decode_text(input), d)
    } else {
        decode_step(d, input)
    }
}

/// Reads documents without copying their strings.
pub struct BorrowedDecoder<'alloc> {
    registry: SchemaRegistry,
    alloc: &'alloc Bump,
    indent: usize,
    indent_auto_detect: bool,
}

impl<'alloc> View for BorrowedDecoder<'alloc> {
    type V = Setting;

    closed spec fn view(&self) -> Setting {
        Setting {
            indent: self.indent as nat,
            auto: self.indent_auto_detect,
            known: known(self.registry),
        }
    }
}

impl<'alloc> BorrowedDecoder<'alloc> {
    /// A decoder that knows no definitions and keeps in `alloc` what it cannot
    /// borrow from the document.
    pub fn new(alloc: &'alloc Bump) -> (r: BorrowedDecoder<'alloc>)
        ensures
            r@ == new_setting(),
    {
        BorrowedDecoder {
            registry: SchemaRegistry::new(),
            alloc,
            indent: 1,
            indent_auto_detect: true,
        }
    }

    /// The value that a document holds.
    pub fn decode<'a>(&mut self, input: &'a str) -> (r: Result<BorrowedValue<'a>, String>) where
        'alloc: 'a,

        ensures
            (as_borrowed(r), final(self)@) == borrowed_step(old(self)@, input@),
    {
        let arena: &'a Bump = self.alloc;
        if !has_char(input, '\n') && has_char(input, ';') {
            return match Decoder::new().decode(input) {
                Ok(v) => Ok(owned_to_borrowed(arena, &v)),
                Err(m) => Err(m),
            };
        }
        if self.indent_auto_detect {
            self.indent = detect_indent(input, self.indent);
        }
        let ls = classify_lines(&mut self.registry, &line_list(input), self.indent);
        decode_document(arena, &mut self.registry, &ls)
    }
}

/// A document that is not minified holds the same value for a decoder whose
/// values borrow as for one whose values do not; for new decoders so does every
/// document.
pub proof fn borrowed_reads_the_same(d: Setting, input: Text)
    ensures
        !is_minified(input) ==> borrowed_step(d, input) == decode_step(d, input),
        borrowed_step(new_setting(), input).0 == decode_text(input),
{
}

} // verus!
