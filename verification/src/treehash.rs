//! Hashes of values: to tell whether two values are the same, in what they
//! differ, and which parts of a value occur more than once.

use indexmap::IndexMap;
use vstd::prelude::*;
use vstd::utf8::encode_utf8;
use crate::json::{json_text, to_json, value_to_json_text};
use crate::number::{integer_text, integer_to_text, plain, plain_text};
use crate::order::{sort_texts, sorted};
use crate::readback::lemma_integer_reads;
use crate::text::{chars_of, owned, same_text, texts, Text};
use crate::value::{
    compact, compact_as_str, entry, has_key, is_simple, key_index, keys, lemma_entry_smaller,
    lemma_item_smaller, lemma_key_index, lemma_models, lemma_models_push, models, put, val_eq,
    values_equal, Entries, SconMap, Val, Value,
};

verus! {

// ---------------------------------------------------------------------------
// Digests

/// The 128-bit XXH3 hash of a row of bytes.
pub uninterp spec fn xxh3_hash(bytes: Seq<u8>) -> u128;

/// `xxhash_rust::xxh3::xxh3_128`: the 128-bit XXH3 hash of the bytes.
pub assume_specification[ xxhash_rust::xxh3::xxh3_128 ](input: &[u8]) -> (r: u128)
    ensures
        r == xxh3_hash(input@),
;

/// The hexadecimal digit that stands for `n`.
pub open spec fn hex_char(n: nat) -> char {
    if n < 10 {
        (n + '0' as u32) as char
    } else {
        (n - 10 + 'a' as u32) as char
    }
}

/// The last `width` hexadecimal digits of `n`.
pub open spec fn hex_text(n: nat, width: nat) -> Text
    decreases width,
{
    if width == 0 {
        seq![]
    } else {
        hex_text(n / 16, (width - 1) as nat).push(hex_char(n % 16))
    }
}

/// The digest of a text: the hash of its bytes in 32 hexadecimal digits.
pub open spec fn digest(t: Text) -> Text {
    hex_text(xxh3_hash(encode_utf8(t)) as nat, 32)
}

/// Whether `c` is a hexadecimal digit.
pub open spec fn is_hex(c: char) -> bool {
    '0' <= c <= '9' || 'a' <= c <= 'f' || 'A' <= c <= 'F'
}

/// Whether `c` is a hexadecimal digit as it is written here.
pub open spec fn is_lower_hex(c: char) -> bool {
    '0' <= c <= '9' || 'a' <= c <= 'f'
}

/// The hexadecimal digits that are written.
pub proof fn lemma_hex_text(n: nat, width: nat)
    ensures
        hex_text(n, width).len() == width,
        forall|i: int| 0 <= i < width ==> is_lower_hex(#[trigger] hex_text(n, width)[i]),
    decreases width,
{
    if width > 0 {
        lemma_hex_text(n / 16, (width - 1) as nat);
        let m = n % 16;
        assert(is_lower_hex(hex_char(m)));
    }
}

/// The last `width` hexadecimal digits of a number.
pub(crate) fn to_hex(n: u128, width: usize) -> (r: String)
    ensures
        r@ == hex_text(n as nat, width as nat),
    decreases width,
{
    if width == 0 {
        return String::new();
    }
    let mut r: String = to_hex(n / 16, width - 1);
    let d: u8 = (n % 16) as u8;
    let c: char = if d < 10 {
        (48u8 + d) as char
    } else {
        (97u8 + (d - 10)) as char
    };
    r.push(c);
    r
}

/// The digest of a text.
fn digest_of(t: &str) -> (r: String)
    ensures
        r@ == digest(t@),
{
    to_hex(xxhash_rust::xxh3::xxh3_128(t.as_bytes()), 32)
}

// ---------------------------------------------------------------------------
// Fingerprints

/// The fingerprint of a value. That of a primitive tells its kind and holds its
/// text; that of an array or an object is a digest of the fingerprints in it,
/// with the entries of an object in the order of their keys.
pub open spec fn fingerprint(v: Val) -> Text
    decreases v, 0int,
{
    match v {
        Val::Null => seq!['\x00'],
        Val::Bool(b) => if b {
            seq!['\x01', '\x01']
        } else {
            seq!['\x01', '\x00']
        },
        Val::Integer(n) => seq!['\x02'] + integer_text(n as int),
        Val::Float(t) => seq!['\x03'] + plain_text(t),
        Val::Str(s) => seq!['\x04'] + s,
        Val::Array(a) => digest("A:"@ + integer_text(a.len() as int) + item_prints(a, 0)),
        Val::Object(o) => digest(
            "O:"@ + integer_text(o.len() as int) + entry_prints(o, sorted(keys(o)), 0),
        ),
    }
}

/// The fingerprints of the items from `i` on, each behind a bar.
pub open spec fn item_prints(a: Seq<Val>, i: int) -> Text
    decreases a, a.len() - i,
{
    if 0 <= i < a.len() {
        seq!['|'] + fingerprint(a[i]) + item_prints(a, i + 1)
    } else {
        seq![]
    }
}

/// The fingerprints of the entries under the keys `ks` from the `i`-th on, each
/// behind a bar and its key.
pub open spec fn entry_prints(o: Entries, ks: Seq<Text>, i: int) -> Text
    decreases o, ks.len() - i,
{
    proof {
        if 0 <= i < ks.len() && has_key(o, ks[i]) {
            lemma_key_index(o, ks[i]);
            lemma_entry_smaller(o, key_index(o, ks[i]));
        }
    }
    if 0 <= i < ks.len() {
        seq!['|'] + ks[i] + seq![':'] + (if has_key(o, ks[i]) {
            fingerprint(o[key_index(o, ks[i])].1)
        } else {
            seq![]
        }) + entry_prints(o, ks, i + 1)
    } else {
        seq![]
    }
}

/// Whether a fingerprint is a digest already.
pub open spec fn is_digest(t: Text) -> bool {
    t.len() == 32 && forall|i: int| 0 <= i < t.len() ==> is_hex(#[trigger] t[i])
}

/// The hash of a value: its fingerprint, or the digest of it where it is none.
pub open spec fn hash_of(v: Val) -> Text {
    if is_digest(fingerprint(v)) {
        fingerprint(v)
    } else {
        digest(fingerprint(v))
    }
}

/// A hash is 32 hexadecimal digits in lower case, whatever the value.
pub proof fn hash_is_hex(v: Val)
    ensures
        hash_of(v).len() == 32,
        forall|i: int| 0 <= i < 32 ==> is_lower_hex(#[trigger] hash_of(v)[i]),
{
    let f = fingerprint(v);
    lemma_hex_text(xxh3_hash(encode_utf8(f)) as nat, 32);
    if is_digest(f) {
        match v {
            Val::Array(a) => {
                let t = "A:"@ + integer_text(a.len() as int) + item_prints(a, 0);
                lemma_hex_text(xxh3_hash(encode_utf8(t)) as nat, 32);
            },
            Val::Object(o) => {
                let t = "O:"@ + integer_text(o.len() as int) + entry_prints(o, sorted(keys(o)), 0);
                lemma_hex_text(xxh3_hash(encode_utf8(t)) as nat, 32);
            },
            _ => {
                assert(is_hex(f[0]));
            },
        }
    }
}

/// The keys of a map in order.
fn ordered_keys<'a>(o: &'a SconMap) -> (r: Vec<&'a str>)
    ensures
        texts(r@) == sorted(keys(o@)),
{
    let n: usize = o.len();
    let mut ks: Vec<&'a str> = Vec::new();
    let mut i: usize = 0;
    while i < n
        invariant
            i <= n == o@.len(),
            texts(ks@) == keys(o@).subrange(0, i as int),
        decreases n - i,
    {
        let ghost before = ks@;
        let k = o.key_at(i);
        ks.push(k);
        assert(texts(ks@) =~= texts(before).push(k@));
        assert(keys(o@).subrange(0, i + 1) =~= keys(o@).subrange(0, i as int).push(k@));
        i += 1;
    }
    assert(keys(o@).subrange(0, n as int) =~= keys(o@));
    sort_texts(&ks)
}

/// A text of one control character and what stands behind it.
fn tagged(tag: char, t: &str) -> (r: String)
    ensures
        r@ == seq![tag] + t@,
{
    let mut r: String = String::new();
    r.push(tag);
    r.push_str(t);
    assert(r@ =~= seq![tag] + t@);
    r
}

/// The fingerprint of a value.
fn fingerprint_of(v: &Value) -> (r: String)
    ensures
        r@ == fingerprint(v@),
    decreases v@,
{
    match v {
        Value::Null => {
            let mut r: String = String::new();
            r.push('\x00');
            assert(r@ =~= seq!['\x00']);
            r
        },
        Value::Bool(b) => {
            let mut r: String = String::new();
            r.push('\x01');
            if *b {
                r.push('\x01');
                assert(r@ =~= seq!['\x01', '\x01']);
            } else {
                r.push('\x00');
                assert(r@ =~= seq!['\x01', '\x00']);
            }
            r
        },
        Value::Integer(n) => tagged('\x02', integer_to_text(*n as i128).as_str()),
        Value::Float(t) => tagged('\x03', plain(t.as_str()).as_str()),
        Value::String(s) => tagged('\x04', compact_as_str(s)),
        Value::Array(a) => {
            assert(decreases_to!(v@ => v@->Array_0));
            let ghost m = models(a@);
            proof {
                lemma_models(a@);
            }
            let mut buf: String = owned("A:");
            buf.push_str(integer_to_text(a.len() as i128).as_str());
            let ghost head = buf@;
            let mut i: usize = 0;
            while i < a.len()
                invariant
                    i <= a@.len() == m.len(),
                    m == models(a@),
                    decreases_to!(v@ => m),
                    forall|j: int| 0 <= j < a@.len() ==> m[j] == (#[trigger] a@[j])@,
                    head + item_prints(m, 0) == buf@ + item_prints(m, i as int),
                decreases a@.len() - i,
            {
                proof {
                    lemma_item_smaller(m, i as int);
                    assert(a@[i as int]@ == m[i as int]);
                }
                let ghost before = buf@;
                let f = fingerprint_of(&a[i]);
                buf.push('|');
                buf.push_str(f.as_str());
                assert(buf@ =~= before + (seq!['|'] + f@));
                assert(before + (seq!['|'] + f@ + item_prints(m, i + 1)) =~= buf@ + item_prints(
                    m,
                    i + 1,
                ));
                i += 1;
            }
            assert(buf@ + item_prints(m, i as int) =~= buf@);
            digest_of(buf.as_str())
        },
        Value::Object(o) => {
            assert(decreases_to!(v@ => v@->Object_0));
            let ks = ordered_keys(o);
            let ghost all = texts(ks@);
            let mut buf: String = owned("O:");
            buf.push_str(integer_to_text(o.len() as i128).as_str());
            let ghost head = buf@;
            let mut i: usize = 0;
            while i < ks.len()
                invariant
                    i <= ks@.len(),
                    all == texts(ks@),
                    decreases_to!(v@ => o@),
                    head + entry_prints(o@, all, 0) == buf@ + entry_prints(o@, all, i as int),
                decreases ks@.len() - i,
            {
                let ghost before = buf@;
                let k: &str = ks[i];
                buf.push('|');
                buf.push_str(k);
                buf.push(':');
                let ghost mut f: Text = seq![];
                if let Some(x) = o.get(k) {
                    proof {
                        lemma_key_index(o@, k@);
                        lemma_entry_smaller(o@, key_index(o@, k@));
                    }
                    let p = fingerprint_of(x);
                    buf.push_str(p.as_str());
                    proof {
                        f = p@;
                    }
                }
                assert(buf@ =~= before + (seq!['|'] + k@ + seq![':'] + f));
                assert(before + (seq!['|'] + k@ + seq![':'] + f + entry_prints(o@, all, i + 1))
                    =~= buf@ + entry_prints(o@, all, i + 1));
                i += 1;
            }
            assert(buf@ + entry_prints(o@, all, i as int) =~= buf@);
            digest_of(buf.as_str())
        },
    }
}

// ---------------------------------------------------------------------------
// The parts of a value

/// How often a part of a value occurs, where it occurs first, and what it is.
pub struct Tally {
    pub count: nat,
    pub path: Text,
    pub data: Val,
}

/// Tallies under the digests of the parts, in the order in which they were met.
pub type Tallies = Seq<(Text, Tally)>;

/// How often a part of a value occurs, where it occurs first, and what it is.
#[derive(Debug)]
pub struct HashEntry {
    pub count: usize,
    pub path: String,
    pub data: Value,
}

impl View for HashEntry {
    type V = Tally;

    open spec fn view(&self) -> Tally {
        Tally { count: self.count as nat, path: self.path@, data: self.data@ }
    }
}

/// The parts of a value under their digests, in the order in which they were
/// met.
#[verifier::external_body]
#[derive(Debug)]
pub struct HashIndex {
    map: IndexMap<String, HashEntry>,
}

/// The tallies of an index, in order.
pub uninterp spec fn tallies(m: HashIndex) -> Seq<(Seq<char>, Tally)>;

impl View for HashIndex {
    type V = Tallies;

    open spec fn view(&self) -> Tallies {
        tallies(*self)
    }
}

/// `IndexMap::new`: an index without tallies.
#[verifier::external_body]
fn index_new() -> (r: HashIndex)
    ensures
        tallies(r) == Seq::<(Seq<char>, Tally)>::empty(),
{
    HashIndex { map: IndexMap::new() }
}

/// `IndexMap::len`: the number of tallies.
#[verifier::external_body]
fn index_len(m: &HashIndex) -> (r: usize)
    ensures
        r == tallies(*m).len(),
{
    m.map.len()
}

/// `IndexMap::get`: the tally under a digest.
#[verifier::external_body]
fn index_get<'a>(m: &'a HashIndex, k: &str) -> (r: Option<&'a HashEntry>)
    ensures
        match r {
            Some(v) => entry(tallies(*m), k@) == Some(v@),
            None => entry(tallies(*m), k@) is None,
        },
{
    m.map.get(k)
}

/// `IndexMap::get_index`: the digest and the tally at a position. No tally before
/// it has its digest.
#[verifier::external_body]
fn index_at<'a>(m: &'a HashIndex, i: usize) -> (r: Option<(&'a String, &'a HashEntry)>)
    ensures
        match r {
            Some((k, v)) => i < tallies(*m).len() && tallies(*m)[i as int] == (k@, v@) && key_index(
                tallies(*m),
                k@,
            ) == i,
            None => i >= tallies(*m).len(),
        },
{
    m.map.get_index(i)
}

/// `IndexMap::insert`: puts a tally under a digest, in the digest's place where
/// it has one and at the end where it has none.
#[verifier::external_body]
fn index_insert(m: &mut HashIndex, k: String, v: HashEntry)
    ensures
        tallies(*final(m)) == put(tallies(*old(m)), k@, v@),
{
    m.map.insert(k, v);
}

impl Clone for HashEntry {
    fn clone(&self) -> (r: HashEntry)
        ensures
            r@ == self@,
    {
        HashEntry { count: self.count, path: self.path.clone(), data: self.data.clone() }
    }
}

impl Clone for HashIndex {
    fn clone(&self) -> (r: HashIndex)
        ensures
            r@ == self@,
    {
        let mut out: HashIndex = index_new();
        let n: usize = self.len();
        let mut i: usize = 0;
        while i < n
            invariant
                i <= n == self@.len(),
                out@ == self@.subrange(0, i as int),
            decreases n - i,
        {
            if let Some((k, t)) = index_at(self, i) {
                proof {
                    lemma_key_index(self@, k@);
                    lemma_key_index(out@, k@);
                    assert(self@.subrange(0, i + 1) =~= self@.subrange(0, i as int).push(
                        self@[i as int],
                    ));
                }
                index_insert(&mut out, k.clone(), t.clone());
            }
            i += 1;
        }
        assert(self@.subrange(0, n as int) =~= self@);
        out
    }
}

impl HashIndex {
    /// The number of parts.
    pub fn len(&self) -> (r: usize)
        ensures
            r == self@.len(),
    {
        index_len(self)
    }

    /// Whether there is no part.
    pub fn is_empty(&self) -> (r: bool)
        ensures
            r == (self@.len() == 0),
    {
        index_len(self) == 0
    }

    /// The tally under a digest.
    pub fn get(&self, hash: &str) -> (r: Option<&HashEntry>)
        ensures
            match r {
                Some(t) => entry(self@, hash@) == Some(t@),
                None => entry(self@, hash@) is None,
            },
    {
        index_get(self, hash)
    }

    /// The tallies, in order.
    pub fn values(&self) -> (r: Vec<&HashEntry>)
        ensures
            r@.len() == self@.len(),
            forall|i: int| 0 <= i < r@.len() ==> (#[trigger] r@[i])@ == self@[i].1,
    {
        let mut r: Vec<&HashEntry> = Vec::new();
        let n: usize = self.len();
        let mut i: usize = 0;
        while i < n
            invariant
                i <= n == self@.len(),
                r@.len() == i,
                forall|j: int| 0 <= j < i ==> (#[trigger] r@[j])@ == self@[j].1,
            decreases n - i,
        {
            if let Some((_, t)) = index_at(self, i) {
                r.push(t);
            }
            i += 1;
        }
        r
    }
}

/// One occurrence more of the part under `hash`.
pub open spec fn counted(s: Tallies, hash: Text, path: Text, data: Val) -> Tallies {
    match entry(s, hash) {
        Some(t) => put(
            s,
            hash,
            Tally {
                count: if t.count < usize::MAX {
                    t.count + 1
                } else {
                    t.count
                },
                ..t
            },
        ),
        None => put(s, hash, Tally { count: 1, path, data }),
    }
}

/// The tallies with the part `v` at `path` counted by the digest of its JSON
/// text.
pub open spec fn registered(s: Tallies, v: Val, path: Text) -> Tallies {
    counted(s, root_digest(v), path, v)
}

/// The path of what is under `key` at `path`.
pub open spec fn below(path: Text, key: Text) -> Text {
    if path.len() == 0 {
        key
    } else {
        path + "."@ + key
    }
}

/// The path of the item at `i` of the list at `path`.
pub open spec fn item_path(path: Text, i: int) -> Text {
    path + ".["@ + integer_text(i) + "]"@
}

/// The path of the item at `i` of a list that may be the whole value.
pub open spec fn list_path(path: Text, i: int) -> Text {
    if path.len() == 0 {
        "["@ + integer_text(i) + "]"@
    } else {
        item_path(path, i)
    }
}

/// The tallies with the parts of `v` counted, where `v` stands at `path`. Parts
/// are the objects inside it that are not empty; those with fewer than `min`
/// entries are not counted themselves.
pub open spec fn collected(v: Val, path: Text, s: Tallies, min: nat) -> Tallies
    decreases v, 0int,
{
    match v {
        Val::Object(o) => collected_entries(o, path, s, min, 0),
        Val::Array(a) => collected_list(a, path, s, min, 0),
        _ => s,
    }
}

/// The tallies with `v` and its parts counted, where it is an object that is
/// not empty.
pub open spec fn visited(v: Val, path: Text, s: Tallies, min: nat) -> Tallies
    decreases v, 1int,
{
    match v {
        Val::Object(o) => if o.len() == 0 {
            s
        } else if o.len() >= min {
            collected(v, path, registered(s, v, path), min)
        } else {
            collected(v, path, s, min)
        },
        _ => s,
    }
}

/// The tallies with the parts of the entries from `i` on counted.
pub open spec fn collected_entries(o: Entries, path: Text, s: Tallies, min: nat, i: int) -> Tallies
    decreases o, o.len() - i,
{
    if 0 <= i < o.len() {
        let child = below(path, o[i].0);
        let next = match o[i].1 {
            Val::Array(a) => collected_items(a, child, s, min, 0),
            _ => visited(o[i].1, child, s, min),
        };
        collected_entries(o, path, next, min, i + 1)
    } else {
        s
    }
}

/// The tallies with the items of a list under a key counted.
pub open spec fn collected_items(a: Seq<Val>, path: Text, s: Tallies, min: nat, i: int) -> Tallies
    decreases a, a.len() - i,
{
    if 0 <= i < a.len() {
        collected_items(a, path, visited(a[i], item_path(path, i), s, min), min, i + 1)
    } else {
        s
    }
}

/// The tallies with the items of a list counted.
pub open spec fn collected_list(a: Seq<Val>, path: Text, s: Tallies, min: nat, i: int) -> Tallies
    decreases a, a.len() - i,
{
    if 0 <= i < a.len() {
        collected_list(a, path, visited(a[i], list_path(path, i), s, min), min, i + 1)
    } else {
        s
    }
}

/// `v` with the entries of its objects in the order of their keys.
pub open spec fn key_sorted(v: Val) -> Val
    decreases v, 0int,
{
    match v {
        Val::Object(o) => Val::Object(key_sorted_entries(o, sorted(keys(o)), 0, seq![])),
        Val::Array(a) => Val::Array(key_sorted_items(a, 0, seq![])),
        _ => v,
    }
}

/// The items from `i` on with their keys in order, behind `done`.
pub open spec fn key_sorted_items(a: Seq<Val>, i: int, done: Seq<Val>) -> Seq<Val>
    decreases a, a.len() - i,
{
    if 0 <= i < a.len() {
        key_sorted_items(a, i + 1, done.push(key_sorted(a[i])))
    } else {
        done
    }
}

/// The entries under the keys `ks` from the `i`-th on with their keys in order,
/// behind `done`.
pub open spec fn key_sorted_entries(o: Entries, ks: Seq<Text>, i: int, done: Entries) -> Entries
    decreases o, ks.len() - i,
{
    proof {
        if 0 <= i < ks.len() && has_key(o, ks[i]) {
            lemma_key_index(o, ks[i]);
            lemma_entry_smaller(o, key_index(o, ks[i]));
        }
    }
    if 0 <= i < ks.len() {
        if has_key(o, ks[i]) {
            key_sorted_entries(
                o,
                ks,
                i + 1,
                put(done, ks[i], key_sorted(o[key_index(o, ks[i])].1)),
            )
        } else {
            key_sorted_entries(o, ks, i + 1, done)
        }
    } else {
        done
    }
}

/// The digest of the JSON text of a value.
pub open spec fn root_digest(v: Val) -> Text {
    digest(json_text(to_json(v)))
}

/// The path of what is under a key.
pub(crate) fn child_path(path: &str, key: &str) -> (r: String)
    ensures
        r@ == below(path@, key@),
{
    if path.is_empty() {
        owned(key)
    } else {
        let mut r: String = owned(path);
        r.push_str(".");
        r.push_str(key);
        r
    }
}

/// The path of an item of a list.
fn path_of_item(path: &str, i: usize) -> (r: String)
    ensures
        r@ == item_path(path@, i as int),
{
    let mut r: String = owned(path);
    r.push_str(".[");
    r.push_str(integer_to_text(i as i128).as_str());
    r.push_str("]");
    r
}

/// Counts one occurrence more of a part.
fn hash_and_register(v: &Value, path: &str, index: &mut HashIndex)
    ensures
        final(index)@ == registered(old(index)@, v@, path@),
{
    let hash = digest_of(value_to_json_text(v).as_str());
    let new: HashEntry = match index_get(index, hash.as_str()) {
        Some(t) => HashEntry {
            count: if t.count < usize::MAX {
                t.count + 1
            } else {
                t.count
            },
            path: t.path.clone(),
            data: t.data.clone(),
        },
        None => HashEntry { count: 1, path: owned(path), data: v.clone() },
    };
    index_insert(index, hash, new);
}

/// Counts a part and the parts in it.
fn visit(v: &Value, path: &str, index: &mut HashIndex, min_keys: usize)
    ensures
        final(index)@ == visited(v@, path@, old(index)@, min_keys as nat),
    decreases v@, 1int,
{
    if let Value::Object(o) = v {
        if !o.is_empty() {
            if o.len() >= min_keys {
                hash_and_register(v, path, index);
            }
            collect_hashes(v, path, index, min_keys);
        }
    }
}

/// Counts the parts of a value.
fn collect_hashes(v: &Value, path: &str, index: &mut HashIndex, min_keys: usize)
    ensures
        final(index)@ == collected(v@, path@, old(index)@, min_keys as nat),
    decreases v@, 0int,
{
    match v {
        Value::Object(o) => {
            assert(decreases_to!(v@ => v@->Object_0));
            let n: usize = o.len();
            let mut i: usize = 0;
            let ghost want = collected(v@, path@, index@, min_keys as nat);
            while i < n
                invariant
                    i <= n == o@.len(),
                    decreases_to!(v@ => o@),
                    want == collected_entries(o@, path@, index@, min_keys as nat, i as int),
                decreases n - i,
            {
                let child = child_path(path, o.key_at(i));
                let x = o.value_at(i);
                proof {
                    lemma_entry_smaller(o@, i as int);
                }
                match x {
                    Value::Array(a) => {
                        assert(decreases_to!(x@ => x@->Array_0));
                        collect_items(a, child.as_str(), index, min_keys);
                    },
                    _ => {
                        visit(x, child.as_str(), index, min_keys);
                    },
                }
                i += 1;
            }
        },
        Value::Array(a) => {
            assert(decreases_to!(v@ => v@->Array_0));
            let ghost m = models(a@);
            proof {
                lemma_models(a@);
            }
            let mut i: usize = 0;
            let ghost want = collected(v@, path@, index@, min_keys as nat);
            while i < a.len()
                invariant
                    i <= a@.len() == m.len(),
                    m == models(a@),
                    forall|j: int| 0 <= j < a@.len() ==> m[j] == (#[trigger] a@[j])@,
                    decreases_to!(v@ => m),
                    want == collected_list(m, path@, index@, min_keys as nat, i as int),
                decreases a@.len() - i,
            {
                let child: String = if path.is_empty() {
                    let mut r: String = owned("[");
                    r.push_str(integer_to_text(i as i128).as_str());
                    r.push_str("]");
                    r
                } else {
                    path_of_item(path, i)
                };
                proof {
                    lemma_item_smaller(m, i as int);
                    assert(a@[i as int]@ == m[i as int]);
                }
                visit(&a[i], child.as_str(), index, min_keys);
                i += 1;
            }
        },
        _ => {},
    }
}

/// Counts the items of a list under a key.
fn collect_items(a: &Vec<Value>, path: &str, index: &mut HashIndex, min_keys: usize)
    ensures
        final(index)@ == collected_items(models(a@), path@, old(index)@, min_keys as nat, 0),
    decreases models(a@), 0int,
{
    let ghost m = models(a@);
    proof {
        lemma_models(a@);
    }
    let mut i: usize = 0;
    let ghost want = collected_items(m, path@, index@, min_keys as nat, 0);
    while i < a.len()
        invariant
            i <= a@.len() == m.len(),
            m == models(a@),
            forall|j: int| 0 <= j < a@.len() ==> m[j] == (#[trigger] a@[j])@,
            want == collected_items(m, path@, index@, min_keys as nat, i as int),
        decreases a@.len() - i,
    {
        let child = path_of_item(path, i);
        proof {
            lemma_item_smaller(m, i as int);
            assert(a@[i as int]@ == m[i as int]);
        }
        visit(&a[i], child.as_str(), index, min_keys);
        i += 1;
    }
}

/// A value with the entries of its objects in the order of their keys.
fn recursive_ksort(v: &Value) -> (r: Value)
    ensures
        r@ == key_sorted(v@),
    decreases v@,
{
    match v {
        Value::Object(o) => {
            assert(decreases_to!(v@ => v@->Object_0));
            let ks = ordered_keys(o);
            let ghost all = texts(ks@);
            let mut out: SconMap = SconMap::new();
            let mut i: usize = 0;
            assert(out@ =~= seq![]);
            while i < ks.len()
                invariant
                    i <= ks@.len(),
                    all == texts(ks@),
                    decreases_to!(v@ => o@),
                    key_sorted_entries(o@, all, 0, seq![]) == key_sorted_entries(
                        o@,
                        all,
                        i as int,
                        out@,
                    ),
                decreases ks@.len() - i,
            {
                let k: &str = ks[i];
                if let Some(x) = o.get(k) {
                    proof {
                        lemma_key_index(o@, k@);
                        lemma_entry_smaller(o@, key_index(o@, k@));
                    }
                    let y = recursive_ksort(x);
                    out.insert(compact(k), y);
                }
                i += 1;
            }
            Value::Object(out)
        },
        Value::Array(a) => {
            assert(decreases_to!(v@ => v@->Array_0));
            let ghost m = models(a@);
            proof {
                lemma_models(a@);
            }
            let mut items: Vec<Value> = Vec::new();
            let mut i: usize = 0;
            while i < a.len()
                invariant
                    i <= a@.len() == m.len(),
                    m == models(a@),
                    forall|j: int| 0 <= j < a@.len() ==> m[j] == (#[trigger] a@[j])@,
                    decreases_to!(v@ => m),
                    key_sorted_items(m, 0, seq![]) == key_sorted_items(
                        m,
                        i as int,
                        models(items@),
                    ),
                decreases a@.len() - i,
            {
                proof {
                    lemma_item_smaller(m, i as int);
                    assert(a@[i as int]@ == m[i as int]);
                }
                let x = recursive_ksort(&a[i]);
                proof {
                    lemma_models_push(items@, x);
                }
                items.push(x);
                i += 1;
            }
            Value::Array(items)
        },
        other => other.clone(),
    }
}

// ---------------------------------------------------------------------------
// Differences

/// Whether two values are the same: equal, or with the same fingerprint.
pub open spec fn same(a: Val, b: Val) -> bool {
    val_eq(a, b) || fingerprint(a) == fingerprint(b)
}

/// In what way two values differ at a path.
pub enum Change {
    Added(Val),
    Removed(Val),
    Changed { old: Val, new: Val },
}

/// A difference between two values.
pub struct Difference {
    pub path: Text,
    pub change: Change,
}

/// The keys of `x`, and behind them those of `y` from the `i`-th on that `x`
/// does not have.
pub open spec fn either_keys(x: Entries, y: Entries, i: int, done: Seq<Text>) -> Seq<Text>
    decreases y.len() - i,
{
    if 0 <= i < y.len() {
        either_keys(
            x,
            y,
            i + 1,
            if has_key(x, y[i].0) {
                done
            } else {
                done.push(y[i].0)
            },
        )
    } else {
        done
    }
}

/// The differences between `a` and `b`, which stand at `path`. Objects are
/// compared key by key.
pub open spec fn differences(a: Val, b: Val, path: Text) -> Seq<Difference>
    decreases a, 0int,
{
    if same(a, b) {
        seq![]
    } else {
        match (a, b) {
            (Val::Object(x), Val::Object(y)) => key_differences(
                x,
                y,
                either_keys(x, y, 0, keys(x)),
                0,
                path,
            ),
            _ => seq![Difference { path, change: Change::Changed { old: a, new: b } }],
        }
    }
}

/// The differences under the keys `ks` from the `i`-th on.
pub open spec fn key_differences(
    x: Entries,
    y: Entries,
    ks: Seq<Text>,
    i: int,
    path: Text,
) -> Seq<Difference>
    decreases x, ks.len() - i,
{
    proof {
        if 0 <= i < ks.len() && has_key(x, ks[i]) {
            lemma_key_index(x, ks[i]);
            lemma_entry_smaller(x, key_index(x, ks[i]));
        }
    }
    if 0 <= i < ks.len() {
        let k = ks[i];
        let here = below(path, k);
        let found = if has_key(x, k) {
            let v = x[key_index(x, k)].1;
            match entry(y, k) {
                Some(w) => differences(v, w, here),
                None => seq![Difference { path: here, change: Change::Removed(v) }],
            }
        } else {
            match entry(y, k) {
                Some(w) => seq![Difference { path: here, change: Change::Added(w) }],
                None => seq![],
            }
        };
        found + key_differences(x, y, ks, i + 1, path)
    } else {
        seq![]
    }
}

/// In what way two values differ.
#[derive(Debug, Clone, PartialEq)]
pub enum DiffKind {
    Added(Value),
    Removed(Value),
    Changed { old: Value, new: Value },
}

/// A difference between two values, and the path to it.
#[derive(Debug, Clone, PartialEq)]
pub struct DiffEntry {
    pub path: String,
    pub kind: DiffKind,
}

impl View for DiffEntry {
    type V = Difference;

    open spec fn view(&self) -> Difference {
        Difference {
            path: self.path@,
            change: match self.kind {
                DiffKind::Added(v) => Change::Added(v@),
                DiffKind::Removed(v) => Change::Removed(v@),
                DiffKind::Changed { old: o, new: n } => Change::Changed { old: o@, new: n@ },
            },
        }
    }
}

/// What the differences of a sequence are.
pub open spec fn diff_views(v: Seq<DiffEntry>) -> Seq<Difference> {
    Seq::new(v.len(), |i: int| v[i]@)
}

/// What the parts of a value hash to, and which of them occur more than once.
#[derive(Debug)]
pub struct HashTreeResult {
    pub root_hash: String,
    pub index: HashIndex,
}

impl Clone for HashTreeResult {
    fn clone(&self) -> (r: HashTreeResult)
        ensures
            r.root_hash@ == self.root_hash@,
            r.index@ == self.index@,
    {
        HashTreeResult { root_hash: self.root_hash.clone(), index: self.index.clone() }
    }
}

/// Hashes of values.
pub struct TreeHash;

impl TreeHash {
    /// The hash of a value, in 32 hexadecimal digits.
    pub fn hash(data: &Value) -> (r: String)
        ensures
            r@ == hash_of(data@),
    {
        let f = fingerprint_of(data);
        let cs = chars_of(f.as_str());
        let mut hex = cs.len() == 32;
        let mut i: usize = 0;
        while i < cs.len() && hex
            invariant
                i <= cs@.len(),
                cs@ == f@,
                hex ==> cs@.len() == 32 && forall|j: int| 0 <= j < i ==> is_hex(#[trigger] cs@[j]),
                !hex ==> !is_digest(f@),
            decreases cs@.len() - i,
        {
            let c: char = cs[i];
            if !(('0' <= c && c <= '9') || ('a' <= c && c <= 'f') || ('A' <= c && c <= 'F')) {
                assert(!is_hex(f@[i as int]));
                hex = false;
            }
            i += 1;
        }
        if hex {
            f
        } else {
            digest_of(f.as_str())
        }
    }

    /// The hash of the JSON text of a value, and a tally of its parts: the
    /// objects in it with at least `min_keys` entries, under the digests of
    /// their JSON texts. Where `normalize` holds, the entries of objects are
    /// put in the order of their keys before.
    pub fn hash_tree(data: &Value, base_path: &str, min_keys: usize, normalize: bool) -> (r:
        HashTreeResult)
        ensures
            r.root_hash@ == root_digest(if normalize {
                key_sorted(data@)
            } else {
                data@
            }),
            r.index@ == collected(
                if normalize {
                    key_sorted(data@)
                } else {
                    data@
                },
                base_path@,
                seq![],
                min_keys as nat,
            ),
    {
        let data: Value = if normalize {
            recursive_ksort(data)
        } else {
            data.clone()
        };
        let mut index: HashIndex = index_new();
        assert(index@ =~= seq![]);
        collect_hashes(&data, base_path, &mut index, min_keys);
        let root_hash = digest_of(value_to_json_text(&data).as_str());
        HashTreeResult { root_hash, index }
    }

    /// Whether two values are the same.
    pub fn equals(a: &Value, b: &Value) -> (r: bool)
        ensures
            r == same(a@, b@),
    {
        if values_equal(a, b) {
            return true;
        }
        same_text(fingerprint_of(a).as_str(), fingerprint_of(b).as_str())
    }

    /// The differences between two values.
    pub fn diff(a: &Value, b: &Value, path: &str) -> (r: Vec<DiffEntry>)
        ensures
            diff_views(r@) == differences(a@, b@, path@),
        decreases a@,
    {
        let mut out: Vec<DiffEntry> = Vec::new();
        assert(diff_views(out@) =~= seq![]);
        if TreeHash::equals(a, b) {
            return out;
        }
        match (a, b) {
            (Value::Object(x), Value::Object(y)) => {
                assert(decreases_to!(a@ => a@->Object_0));
                let ks = union_keys(x, y);
                let ghost all = texts(ks@);
                let ghost want = differences(a@, b@, path@);
                let mut i: usize = 0;
                assert(diff_views(out@) + key_differences(x@, y@, all, 0, path@) =~= want);
                while i < ks.len()
                    invariant
                        i <= ks@.len(),
                        all == texts(ks@),
                        decreases_to!(a@ => x@),
                        want == diff_views(out@) + key_differences(x@, y@, all, i as int, path@),
                    decreases ks@.len() - i,
                {
                    let k: &str = ks[i];
                    let here = child_path(path, k);
                    let ghost before = diff_views(out@);
                    let ghost mut found: Seq<Difference> = seq![];
                    match x.get(k) {
                        Some(v) => {
                            proof {
                                lemma_key_index(x@, k@);
                                lemma_entry_smaller(x@, key_index(x@, k@));
                            }
                            match y.get(k) {
                                Some(w) => {
                                    let mut more = TreeHash::diff(v, w, here.as_str());
                                    proof {
                                        found = diff_views(more@);
                                    }
                                    let ghost o = out@;
                                    let ghost m = more@;
                                    out.append(&mut more);
                                    assert(diff_views(out@) =~= diff_views(o) + diff_views(m));
                                },
                                None => {
                                    let d = DiffEntry {
                                        path: here,
                                        kind: DiffKind::Removed(v.clone()),
                                    };
                                    proof {
                                        found = seq![d@];
                                    }
                                    out.push(d);
                                    assert(diff_views(out@) =~= before + found);
                                },
                            }
                        },
                        None => {
                            if let Some(w) = y.get(k) {
                                let d = DiffEntry { path: here, kind: DiffKind::Added(w.clone()) };
                                proof {
                                    found = seq![d@];
                                }
                                out.push(d);
                                assert(diff_views(out@) =~= before + found);
                            } else {
                                assert(before + found =~= before);
                            }
                        },
                    }
                    assert(diff_views(out@) =~= before + found);
                    assert(before + (found + key_differences(x@, y@, all, i + 1, path@))
                        =~= diff_views(out@) + key_differences(x@, y@, all, i + 1, path@));
                    i += 1;
                }
                assert(diff_views(out@) + key_differences(x@, y@, all, i as int, path@)
                    =~= diff_views(out@));
            },
            _ => {
                let d = DiffEntry {
                    path: owned(path),
                    kind: DiffKind::Changed { old: a.clone(), new: b.clone() },
                };
                out.push(d);
                assert(diff_views(out@) =~= seq![d@]);
            },
        }
        out
    }
}

/// The keys of two maps, those of the first in front.
fn union_keys<'a>(x: &'a SconMap, y: &'a SconMap) -> (r: Vec<&'a str>)
    ensures
        texts(r@) == either_keys(x@, y@, 0, keys(x@)),
{
    let mut r: Vec<&'a str> = Vec::new();
    let n: usize = x.len();
    let mut i: usize = 0;
    while i < n
        invariant
            i <= n == x@.len(),
            texts(r@) == keys(x@).subrange(0, i as int),
        decreases n - i,
    {
        let ghost before = r@;
        let k = x.key_at(i);
        r.push(k);
        assert(texts(r@) =~= texts(before).push(k@));
        assert(keys(x@).subrange(0, i + 1) =~= keys(x@).subrange(0, i as int).push(k@));
        i += 1;
    }
    assert(keys(x@).subrange(0, n as int) =~= keys(x@));
    let m: usize = y.len();
    i = 0;
    while i < m
        invariant
            i <= m == y@.len(),
            either_keys(x@, y@, 0, keys(x@)) == either_keys(x@, y@, i as int, texts(r@)),
        decreases m - i,
    {
        let k = y.key_at(i);
        if !x.contains_key(k) {
            let ghost before = r@;
            r.push(k);
            assert(texts(r@) =~= texts(before).push(k@));
        }
        i += 1;
    }
    r
}

// ---------------------------------------------------------------------------
// What holds of fingerprints and differences

/// What the fingerprint of a primitive begins with tells its kind.
proof fn lemma_print_begins(v: Val)
    requires
        is_simple(v),
    ensures
        fingerprint(v).len() > 0,
        fingerprint(v)[0] == (match v {
            Val::Null => '\x00',
            Val::Bool(_) => '\x01',
            Val::Integer(_) => '\x02',
            Val::Float(_) => '\x03',
            _ => '\x04',
        }),
{
    match v {
        Val::Integer(n) => {
            assert((seq!['\x02'] + integer_text(n as int))[0] == '\x02');
        },
        Val::Float(t) => {
            assert((seq!['\x03'] + plain_text(t))[0] == '\x03');
        },
        Val::Str(s) => {
            assert((seq!['\x04'] + s)[0] == '\x04');
        },
        _ => {},
    }
}

/// The fingerprints of primitives tell their kinds apart, and but for numbers
/// that are no integers the primitives themselves.
pub proof fn fingerprints_tell_primitives_apart(a: Val, b: Val)
    requires
        is_simple(a),
        is_simple(b),
        fingerprint(a) == fingerprint(b),
    ensures
        a is Null == b is Null,
        a is Bool == b is Bool,
        a is Integer == b is Integer,
        a is Float == b is Float,
        a is Str == b is Str,
        !(a is Float) ==> a == b,
{
    let f = fingerprint(a);
    let g = fingerprint(b);
    lemma_print_begins(a);
    lemma_print_begins(b);
    assert(f[0] == g[0]);
    match (a, b) {
        (Val::Bool(x), Val::Bool(y)) => {
            assert(f[1] == g[1]);
        },
        (Val::Integer(x), Val::Integer(y)) => {
            let s = integer_text(x as int);
            let t = integer_text(y as int);
            assert(f.subrange(1, f.len() as int) =~= s);
            assert(g.subrange(1, g.len() as int) =~= t);
            lemma_integer_reads(x);
            lemma_integer_reads(y);
        },
        (Val::Str(x), Val::Str(y)) => {
            assert(f.subrange(1, f.len() as int) =~= x);
            assert(g.subrange(1, g.len() as int) =~= y);
        },
        _ => {},
    }
}

/// A value is the same as itself and differs in nothing from itself; what is
/// the same differs in nothing; and what is not the same and not both objects
/// differs in one thing, at its own path.
pub proof fn differences_tell_what_is_the_same(a: Val, b: Val, path: Text)
    ensures
        same(a, a),
        differences(a, a, path) == Seq::<Difference>::empty(),
        same(a, b) ==> differences(a, b, path) == Seq::<Difference>::empty(),
        !same(a, b) && !(a is Object && b is Object) ==> differences(a, b, path) == seq![
            Difference { path, change: Change::Changed { old: a, new: b } },
        ],
{
}

} // verus!
