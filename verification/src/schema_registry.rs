//! Named definitions, and references to them resolved with a guard against
//! going in circles.

use vstd::prelude::*;
use crate::overrides::{apply_overrides, overridden};
use crate::text::{owned, same_text, Text};
use crate::value::{
    compact, distinct, entry, has_key, key_index, lemma_entry_smaller, lemma_item_smaller,
    lemma_key_index, lemma_models, lemma_put, lemma_put_new, models, put, Entries, SconMap, Val,
    Value,
};

verus! {

// ---------------------------------------------------------------------------
// Kinds of definitions

/// A kind of definition.
#[derive(Debug, Clone, Copy, PartialEq, Eq, Structural)]
pub enum DefType {
    Schema,
    Response,
    Security,
}

/// The word that names a kind.
pub open spec fn prefix_of(d: DefType) -> Text {
    match d {
        DefType::Schema => "s"@,
        DefType::Response => "r"@,
        DefType::Security => "sec"@,
    }
}

/// The kind that a word names.
pub open spec fn kind_of(s: Text) -> Option<DefType> {
    if s == "s"@ {
        Some(DefType::Schema)
    } else if s == "r"@ {
        Some(DefType::Response)
    } else if s == "sec"@ {
        Some(DefType::Security)
    } else {
        None
    }
}

impl DefType {
    /// The kind that the word `s` names.
    pub fn from_prefix(s: &str) -> (r: Option<DefType>)
        ensures
            r == kind_of(s@),
    {
        if same_text(s, "s") {
            Some(DefType::Schema)
        } else if same_text(s, "r") {
            Some(DefType::Response)
        } else if same_text(s, "sec") {
            Some(DefType::Security)
        } else {
            None
        }
    }

    /// The word that names the kind.
    pub fn prefix(&self) -> (r: &'static str)
        ensures
            r@ == prefix_of(*self),
    {
        match self {
            DefType::Schema => "s",
            DefType::Response => "r",
            DefType::Security => "sec",
        }
    }
}

/// A kind is read back from the word that names it, and a word that names a
/// kind is the one that the kind is named by.
pub proof fn prefix_names_kind(d: DefType, s: Text)
    ensures
        kind_of(prefix_of(d)) == Some(d),
        kind_of(s) == Some(d) <==> s == prefix_of(d),
{
    reveal_strlit("s");
    reveal_strlit("r");
    reveal_strlit("sec");
    assert("s"@[0] == 's' && "r"@[0] == 'r');
    assert("sec"@.len() == 3);
}

// ---------------------------------------------------------------------------
// What a reference resolves to

/// The definitions of each kind, in order.
pub struct Stores {
    pub schemas: Entries,
    pub responses: Entries,
    pub security: Entries,
}

/// No definitions.
pub open spec fn no_stores() -> Stores {
    Stores { schemas: seq![], responses: seq![], security: seq![] }
}

/// The definitions of one kind.
pub open spec fn store(s: Stores, d: DefType) -> Entries {
    match d {
        DefType::Schema => s.schemas,
        DefType::Response => s.responses,
        DefType::Security => s.security,
    }
}

/// The definitions with `v` defined under a name.
pub open spec fn defined(s: Stores, d: DefType, name: Text, v: Val) -> Stores {
    match d {
        DefType::Schema => Stores { schemas: put(s.schemas, name, v), ..s },
        DefType::Response => Stores { responses: put(s.responses, name, v), ..s },
        DefType::Security => Stores { security: put(s.security, name, v), ..s },
    }
}

/// How a reference is written down while it is being resolved.
pub open spec fn ref_key(d: DefType, name: Text) -> Text {
    prefix_of(d) + ":"@ + name
}

/// The references to the definitions of one kind.
pub open spec fn ref_keys(s: Stores, d: DefType) -> Seq<Text> {
    Seq::new(store(s, d).len(), |i: int| ref_key(d, store(s, d)[i].0))
}

/// The references to all definitions.
pub open spec fn all_ref_keys(s: Stores) -> Seq<Text> {
    ref_keys(s, DefType::Schema) + ref_keys(s, DefType::Response) + ref_keys(s, DefType::Security)
}

/// How many of `keys` are not among `open`.
pub open spec fn count_free(keys: Seq<Text>, open: Seq<Text>) -> nat
    decreases keys.len(),
{
    if keys.len() == 0 {
        0
    } else {
        count_free(keys.drop_last(), open) + (if open.contains(keys.last()) {
            0nat
        } else {
            1nat
        })
    }
}

/// How many references can still be opened.
pub open spec fn free(s: Stores, open: Seq<Text>) -> nat {
    count_free(all_ref_keys(s), open)
}

/// The size of a value.
pub open spec fn size(v: Val) -> nat
    decreases v, 0nat,
{
    match v {
        Val::Array(a) => 1 + items_size(a, 0),
        Val::Object(o) => 1 + entries_size(o, 0),
        _ => 1,
    }
}

/// The size of the items from `i` on.
pub open spec fn items_size(a: Seq<Val>, i: int) -> nat
    decreases a, a.len() - i,
{
    if 0 <= i < a.len() {
        size(a[i]) + items_size(a, i + 1)
    } else {
        0
    }
}

/// The size of the values of the entries from `i` on.
pub open spec fn entries_size(o: Entries, i: int) -> nat
    decreases o, o.len() - i,
{
    if 0 <= i < o.len() {
        size(o[i].1) + entries_size(o, i + 1)
    } else {
        0
    }
}

/// A value has some size.
pub proof fn lemma_size(v: Val)
    ensures
        size(v) >= 1,
{
}

/// What stands for a reference to a definition that is being resolved.
pub open spec fn circular(name: Text) -> Val {
    Val::Object(seq![("$ref"@, Val::Str("#/definitions/"@ + name))])
}

/// The text of an entry that is a string, or `other`.
pub open spec fn text_entry(o: Entries, k: Text, other: Text) -> Text {
    match entry(o, k) {
        Some(Val::Str(s)) => s,
        _ => other,
    }
}

/// What a reference resolves to while the references `open` are being
/// resolved: the definition with the references in it resolved. A reference
/// that is being resolved stands for itself.
pub open spec fn resolved(s: Stores, open: Seq<Text>, d: DefType, name: Text) -> Result<Val, Text>
    decreases free(s, open), 0nat, 0nat,
{
    match entry(store(s, d), name) {
        None => Err("Undefined reference: @"@ + prefix_of(d) + ":"@ + name),
        Some(v) => {
            let key = ref_key(d, name);
            if open.contains(key) {
                Ok(circular(name))
            } else {
                proof {
                    lemma_opened(s, open, d, name);
                }
                resolved_inside(s, open.push(key), v)
            }
        },
    }
}

/// What a reference with overrides resolves to.
pub open spec fn resolved_over(
    s: Stores,
    open: Seq<Text>,
    d: DefType,
    name: Text,
    over: Val,
) -> Result<Val, Text>
    decreases free(s, open), 0nat, 1nat,
{
    match resolved(s, open, d, name) {
        Ok(base) => Ok(overridden(base, over)),
        Err(f) => Err(f),
    }
}

/// The alternatives among `refs` from `i` on, resolved, behind `done`.
pub open spec fn resolved_choices(
    s: Stores,
    open: Seq<Text>,
    refs: Seq<Val>,
    i: int,
    done: Seq<Val>,
) -> Result<Val, Text>
    decreases free(s, open), 0nat, (if i < refs.len() { 1 + refs.len() - i } else { 1 }) as nat,
{
    if 0 <= i < refs.len() {
        match refs[i] {
            Val::Object(r) => match kind_of(text_entry(r, "type"@, "s"@)) {
                Some(d) => match resolved(s, open, d, text_entry(r, "name"@, ""@)) {
                    Ok(v) => resolved_choices(s, open, refs, i + 1, done.push(v)),
                    Err(f) => Err(f),
                },
                None => resolved_choices(s, open, refs, i + 1, done),
            },
            _ => resolved_choices(s, open, refs, i + 1, done),
        }
    } else {
        Ok(Val::Object(seq![("oneOf"@, Val::Array(done))]))
    }
}

/// `v` with the references inside it resolved.
pub open spec fn resolved_inside(s: Stores, open: Seq<Text>, v: Val) -> Result<Val, Text>
    decreases free(s, open), size(v), 1nat,
{
    match v {
        Val::Object(o) => match resolved_entries(s, open, o, 0, seq![]) {
            Ok(r) => Ok(Val::Object(r)),
            Err(f) => Err(f),
        },
        Val::Array(a) => match resolved_items(s, open, a, 0, seq![]) {
            Ok(r) => Ok(Val::Array(r)),
            Err(f) => Err(f),
        },
        _ => Ok(v),
    }
}

/// The items from `i` on with the references inside them resolved, behind
/// `done`.
pub open spec fn resolved_items(
    s: Stores,
    open: Seq<Text>,
    a: Seq<Val>,
    i: int,
    done: Seq<Val>,
) -> Result<Seq<Val>, Text>
    decreases free(s, open), items_size(a, i), 3nat,
{
    if 0 <= i < a.len() {
        proof {
            lemma_size(a[i]);
        }
        match resolved_inside(s, open, a[i]) {
            Ok(v) => resolved_items(s, open, a, i + 1, done.push(v)),
            Err(f) => Err(f),
        }
    } else {
        Ok(done)
    }
}

/// The entries from `i` on with the references in their values resolved,
/// behind `done`.
pub open spec fn resolved_entries(
    s: Stores,
    open: Seq<Text>,
    o: Entries,
    i: int,
    done: Entries,
) -> Result<Entries, Text>
    decreases free(s, open), entries_size(o, i), 3nat,
{
    if 0 <= i < o.len() {
        proof {
            lemma_size(o[i].1);
        }
        match resolved_field(s, open, o[i].1) {
            Ok(v) => resolved_entries(s, open, o, i + 1, put(done, o[i].0, v)),
            Err(f) => Err(f),
        }
    } else {
        Ok(done)
    }
}

/// The value of an entry with its references resolved: an object with an
/// `@ref` object is a reference, with overrides where `@overrides` is an
/// object; one with an `@polymorphic` array is a choice of references.
pub open spec fn resolved_field(s: Stores, open: Seq<Text>, v: Val) -> Result<Val, Text>
    decreases free(s, open), size(v), 2nat,
{
    match v {
        Val::Object(o) => match entry(o, "@ref"@) {
            Some(Val::Object(r)) => match kind_of(text_entry(r, "type"@, ""@)) {
                Some(d) => {
                    let name = text_entry(r, "name"@, ""@);
                    match entry(o, "@overrides"@) {
                        Some(Val::Object(over)) => resolved_over(
                            s,
                            open,
                            d,
                            name,
                            Val::Object(over),
                        ),
                        _ => resolved(s, open, d, name),
                    }
                },
                None => Ok(v),
            },
            _ => match entry(o, "@polymorphic"@) {
                Some(Val::Array(refs)) => resolved_choices(s, open, refs, 0, seq![]),
                Some(_) => Ok(v),
                None => resolved_inside(s, open, v),
            },
        },
        Val::Array(_) => resolved_inside(s, open, v),
        _ => Ok(v),
    }
}

/// Opening a definition leaves fewer to open.
pub proof fn lemma_opened(s: Stores, open: Seq<Text>, d: DefType, name: Text)
    requires
        entry(store(s, d), name) is Some,
        !open.contains(ref_key(d, name)),
    ensures
        free(s, open.push(ref_key(d, name))) < free(s, open),
{
    let key = ref_key(d, name);
    let keys = all_ref_keys(s);
    let i = key_index(store(s, d), name);
    lemma_key_index(store(s, d), name);
    assert(ref_keys(s, d)[i] == key);
    let n1 = s.schemas.len();
    let n2 = s.responses.len();
    match d {
        DefType::Schema => {
            assert(keys[i] == key);
        },
        DefType::Response => {
            assert(keys[n1 + i] == key);
        },
        DefType::Security => {
            assert(keys[n1 + n2 + i] == key);
        },
    }
    assert(keys.contains(key));
    lemma_count_free(keys, open, key);
}

/// Opening one of `keys` leaves fewer of them to open.
proof fn lemma_count_free(keys: Seq<Text>, open: Seq<Text>, key: Text)
    requires
        !open.contains(key),
    ensures
        count_free(keys, open.push(key)) <= count_free(keys, open),
        keys.contains(key) ==> count_free(keys, open.push(key)) < count_free(keys, open),
    decreases keys.len(),
{
    if keys.len() > 0 {
        lemma_count_free(keys.drop_last(), open, key);
        let wider = open.push(key);
        assert(wider[open.len() as int] == key);
        if open.contains(keys.last()) {
            let j = choose|j: int| 0 <= j < open.len() && open[j] == keys.last();
            assert(wider[j] == keys.last());
        }
        if keys.contains(key) && keys.last() != key {
            let j = choose|j: int| 0 <= j < keys.len() && keys[j] == key;
            assert(keys.drop_last()[j] == key);
        }
    }
}

// ---------------------------------------------------------------------------
// The registry

/// What the strings of a sequence hold.
pub open spec fn string_texts(v: Seq<String>) -> Seq<Text> {
    Seq::new(v.len(), |i: int| v[i]@)
}

/// The definitions of a document, and the references that are being resolved.
#[derive(Debug)]
pub struct SchemaRegistry {
    schemas: SconMap,
    responses: SconMap,
    security: SconMap,
    resolving: Vec<String>,
}

/// Whether `r` is the value or the message of `want`.
pub open spec fn comes_to(want: Result<Val, Text>, r: Result<Value, String>) -> bool {
    match (want, r) {
        (Ok(w), Ok(v)) => v@ == w,
        (Err(f), Err(m)) => m@ == f,
        _ => false,
    }
}

impl Default for SchemaRegistry {
    /// A registry without definitions.
    fn default() -> (r: SchemaRegistry)
        ensures
            r.stores() == no_stores(),
            r.open() == Seq::<Text>::empty(),
    {
        SchemaRegistry::new()
    }
}

impl Clone for SchemaRegistry {
    fn clone(&self) -> (r: SchemaRegistry)
        ensures
            r.stores() == self.stores(),
            r.open() == self.open(),
    {
        let mut resolving: Vec<String> = Vec::new();
        let mut i: usize = 0;
        while i < self.resolving.len()
            invariant
                i <= self.resolving@.len(),
                string_texts(resolving@) == string_texts(self.resolving@).subrange(0, i as int),
            decreases self.resolving@.len() - i,
        {
            let ghost before = resolving@;
            resolving.push(self.resolving[i].clone());
            assert(string_texts(resolving@) =~= string_texts(before).push(self.resolving@[i as int]@));
            i += 1;
        }
        assert(string_texts(self.resolving@).subrange(0, i as int) =~= string_texts(self.resolving@));
        SchemaRegistry {
            schemas: self.schemas.clone(),
            responses: self.responses.clone(),
            security: self.security.clone(),
            resolving,
        }
    }
}

impl SchemaRegistry {
    /// The definitions.
    pub closed spec fn stores(&self) -> Stores {
        Stores {
            schemas: self.schemas@,
            responses: self.responses@,
            security: self.security@,
        }
    }

    /// The references that are being resolved.
    pub closed spec fn open(&self) -> Seq<Text> {
        string_texts(self.resolving@)
    }

    /// A registry without definitions.
    pub fn new() -> (r: SchemaRegistry)
        ensures
            r.stores() == no_stores(),
            r.open() == Seq::<Text>::empty(),
    {
        let r = SchemaRegistry {
            schemas: SconMap::new(),
            responses: SconMap::new(),
            security: SconMap::new(),
            resolving: Vec::new(),
        };
        assert(r.open() =~= Seq::<Text>::empty());
        assert(r.schemas@ =~= seq![] && r.responses@ =~= seq![] && r.security@ =~= seq![]);
        r
    }

    /// Defines `definition` under `name`, in place of what the name stood for.
    pub fn register(&mut self, def_type: DefType, name: &str, definition: Value)
        ensures
            final(self).stores() == defined(old(self).stores(), def_type, name@, definition@),
            final(self).open() == old(self).open(),
    {
        let key = compact(name);
        match def_type {
            DefType::Schema => {
                self.schemas.insert(key, definition);
            },
            DefType::Response => {
                self.responses.insert(key, definition);
            },
            DefType::Security => {
                self.security.insert(key, definition);
            },
        }
    }

    /// Whether there is a definition under `name`.
    pub fn has(&self, def_type: DefType, name: &str) -> (r: bool)
        ensures
            r == has_key(store(self.stores(), def_type), name@),
    {
        self.get_all(def_type).contains_key(name)
    }

    /// The definitions of one kind, in order.
    pub fn get_all(&self, def_type: DefType) -> (r: &SconMap)
        ensures
            r@ == store(self.stores(), def_type),
    {
        match def_type {
            DefType::Schema => &self.schemas,
            DefType::Response => &self.responses,
            DefType::Security => &self.security,
        }
    }

    /// Takes all definitions out.
    pub fn reset(&mut self)
        ensures
            final(self).stores() == no_stores(),
            final(self).open() == Seq::<Text>::empty(),
    {
        self.schemas.clear();
        self.responses.clear();
        self.security.clear();
        self.resolving.clear();
        assert(self.open() =~= Seq::<Text>::empty());
        assert(self.schemas@ =~= seq![] && self.responses@ =~= seq![] && self.security@ =~= seq![]);
    }

    /// Whether a reference is being resolved.
    fn is_open(&self, key: &str) -> (r: bool)
        ensures
            r == self.open().contains(key@),
    {
        let mut i: usize = 0;
        while i < self.resolving.len()
            invariant
                i <= self.resolving@.len(),
                forall|j: int| 0 <= j < i ==> self.open()[j] != key@,
            decreases self.resolving@.len() - i,
        {
            if same_text(self.resolving[i].as_str(), key) {
                assert(self.open()[i as int] == key@);
                return true;
            }
            i += 1;
        }
        false
    }

    /// What the reference to `name` resolves to: its definition, with the
    /// references in it resolved. An undefined name is an error.
    pub fn resolve(&mut self, def_type: DefType, name: &str) -> (r: Result<Value, String>)
        ensures
            final(self).stores() == old(self).stores(),
            final(self).open() == old(self).open(),
            comes_to(
                resolved(old(self).stores(), old(self).open(), def_type, name@),
                r,
            ),
        decreases free(old(self).stores(), old(self).open()), 0nat, 0nat,
    {
        let found: Option<Value> = match self.get_all(def_type).get(name) {
            Some(v) => Some(v.clone()),
            None => None,
        };
        match found {
            None => {
                let mut m: String = owned("Undefined reference: @");
                m.push_str(def_type.prefix());
                m.push_str(":");
                m.push_str(name);
                Err(m)
            },
            Some(val) => {
                let mut key: String = owned(def_type.prefix());
                key.push_str(":");
                key.push_str(name);
                if self.is_open(key.as_str()) {
                    let mut target: String = owned("#/definitions/");
                    target.push_str(name);
                    let mut marker: SconMap = SconMap::new();
                    marker.insert(compact("$ref"), Value::String(compact(target.as_str())));
                    assert(marker@ =~= seq![("$ref"@, Val::Str("#/definitions/"@ + name@))]);
                    return Ok(Value::Object(marker));
                }
                proof {
                    lemma_opened(self.stores(), self.open(), def_type, name@);
                }
                self.resolving.push(key);
                assert(self.open() =~= old(self).open().push(ref_key(def_type, name@)));
                let result = self.deep_resolve_refs(&val);
                let ghost inside = self.resolving@;
                self.resolving.pop();
                assert(string_texts(inside).len() == old(self).open().len() + 1);
                assert(self.resolving@ =~= inside.drop_last());
                assert(self.open() =~= string_texts(inside).drop_last());
                assert(self.open() =~= old(self).open());
                result
            },
        }
    }

    /// What the reference to `name` resolves to with the overrides laid over
    /// it: fields whose key begins with a minus sign are taken out, the others
    /// merged in, and a key with dots is a path.
    pub fn resolve_with_override(
        &mut self,
        def_type: DefType,
        name: &str,
        overrides: &Value,
    ) -> (r: Result<Value, String>)
        ensures
            final(self).stores() == old(self).stores(),
            final(self).open() == old(self).open(),
            comes_to(
                resolved_over(old(self).stores(), old(self).open(), def_type, name@, overrides@),
                r,
            ),
        decreases free(old(self).stores(), old(self).open()), 0nat, 1nat,
    {
        match self.resolve(def_type, name) {
            Ok(base) => Ok(apply_overrides(base, overrides)),
            Err(m) => Err(m),
        }
    }

    /// A value with the references inside it resolved.
    fn deep_resolve_refs(&mut self, data: &Value) -> (r: Result<Value, String>)
        ensures
            final(self).stores() == old(self).stores(),
            final(self).open() == old(self).open(),
            comes_to(
                resolved_inside(old(self).stores(), old(self).open(), data@),
                r,
            ),
        decreases free(old(self).stores(), old(self).open()), size(data@), 1nat,
    {
        match data {
            Value::Object(o) => {
                let mut result: SconMap = SconMap::new();
                let n: usize = o.len();
                let mut i: usize = 0;
                let ghost st = self.stores();
                let ghost open = self.open();
                assert(result@ =~= seq![]);
                while i < n
                    invariant
                        i <= n == o@.len(),
                        data@ == Val::Object(o@),
                        st == old(self).stores(),
                        open == old(self).open(),
                        self.stores() == st,
                        self.open() == open,
                        size(data@) == 1 + entries_size(o@, 0),
                        entries_size(o@, i as int) <= entries_size(o@, 0),
                        resolved_entries(st, open, o@, 0, seq![]) == resolved_entries(
                            st,
                            open,
                            o@,
                            i as int,
                            result@,
                        ),
                    decreases n - i,
                {
                    let v = o.value_at(i);
                    proof {
                        lemma_size(v@);
                    }
                    match self.resolve_field(v) {
                        Ok(new) => {
                            result.insert(compact(o.key_at(i)), new);
                        },
                        Err(m) => {
                            return Err(m);
                        },
                    }
                    i += 1;
                }
                Ok(Value::Object(result))
            },
            Value::Array(a) => {
                let mut result: Vec<Value> = Vec::new();
                let n: usize = a.len();
                let mut i: usize = 0;
                let ghost st = self.stores();
                let ghost open = self.open();
                proof {
                    lemma_models(a@);
                }
                while i < n
                    invariant
                        i <= n == a@.len(),
                        data@ == Val::Array(models(a@)),
                        models(a@).len() == n,
                        forall|j: int| 0 <= j < n ==> models(a@)[j] == (#[trigger] a@[j])@,
                        st == old(self).stores(),
                        open == old(self).open(),
                        self.stores() == st,
                        self.open() == open,
                        size(data@) == 1 + items_size(models(a@), 0),
                        items_size(models(a@), i as int) <= items_size(models(a@), 0),
                        resolved_items(st, open, models(a@), 0, seq![]) == resolved_items(
                            st,
                            open,
                            models(a@),
                            i as int,
                            models(result@),
                        ),
                    decreases n - i,
                {
                    assert(a@[i as int]@ == models(a@)[i as int]);
                    match self.deep_resolve_refs(&a[i]) {
                        Ok(new) => {
                            let ghost before = result@;
                            result.push(new);
                            assert(result@.drop_last() =~= before);
                        },
                        Err(m) => {
                            return Err(m);
                        },
                    }
                    i += 1;
                }
                Ok(Value::Array(result))
            },
            other => Ok(other.clone()),
        }
    }

    /// The value of an entry with its references resolved.
    fn resolve_field(&mut self, val: &Value) -> (r: Result<Value, String>)
        ensures
            final(self).stores() == old(self).stores(),
            final(self).open() == old(self).open(),
            comes_to(
                resolved_field(old(self).stores(), old(self).open(), val@),
                r,
            ),
        decreases free(old(self).stores(), old(self).open()), size(val@), 2nat,
    {
        proof {
            lemma_size(val@);
        }
        match val {
            Value::Object(o) => {
                if let Some(Value::Object(target)) = o.get("@ref") {
                    let word = string_entry(target, "type", "");
                    let name = string_entry(target, "name", "");
                    match DefType::from_prefix(word) {
                        Some(d) => {
                            if let Some(over) = o.get("@overrides") {
                                if over.is_object() {
                                    return self.resolve_with_override(d, name, over);
                                }
                            }
                            self.resolve(d, name)
                        },
                        None => Ok(val.clone()),
                    }
                } else {
                    match o.get("@polymorphic") {
                        Some(Value::Array(refs)) => self.resolve_polymorphic(refs),
                        Some(_) => Ok(val.clone()),
                        None => self.deep_resolve_refs(val),
                    }
                }
            },
            Value::Array(_) => self.deep_resolve_refs(val),
            other => Ok(other.clone()),
        }
    }

    /// The alternatives that a list of references stands for.
    fn resolve_polymorphic(&mut self, refs: &Vec<Value>) -> (r: Result<Value, String>)
        ensures
            final(self).stores() == old(self).stores(),
            final(self).open() == old(self).open(),
            comes_to(
                resolved_choices(
                    old(self).stores(),
                    old(self).open(),
                    models(refs@),
                    0,
                    seq![],
                ),
                r,
            ),
        decreases free(old(self).stores(), old(self).open()), 0nat, 1nat,
    {
        let mut schemas: Vec<Value> = Vec::new();
        let n: usize = refs.len();
        let mut i: usize = 0;
        let ghost st = self.stores();
        let ghost open = self.open();
        proof {
            lemma_models(refs@);
        }
        while i < n
            invariant
                i <= n == refs@.len(),
                models(refs@).len() == n,
                forall|j: int| 0 <= j < n ==> models(refs@)[j] == (#[trigger] refs@[j])@,
                st == old(self).stores(),
                open == old(self).open(),
                self.stores() == st,
                self.open() == open,
                resolved_choices(st, open, models(refs@), 0, seq![]) == resolved_choices(
                    st,
                    open,
                    models(refs@),
                    i as int,
                    models(schemas@),
                ),
            decreases n - i,
        {
            assert(refs@[i as int]@ == models(refs@)[i as int]);
            if let Value::Object(target) = &refs[i] {
                let word = string_entry(target, "type", "s");
                let name = string_entry(target, "name", "");
                if let Some(d) = DefType::from_prefix(word) {
                    match self.resolve(d, name) {
                        Ok(new) => {
                            let ghost before = schemas@;
                            schemas.push(new);
                            assert(schemas@.drop_last() =~= before);
                        },
                        Err(m) => {
                            return Err(m);
                        },
                    }
                }
            }
            i += 1;
        }
        let mut result: SconMap = SconMap::new();
        result.insert(compact("oneOf"), Value::Array(schemas));
        assert(result@ =~= seq![("oneOf"@, Val::Array(models(schemas@)))]);
        Ok(Value::Object(result))
    }
}

/// The text of an entry that is a string, or `other`.
fn string_entry<'a>(o: &'a SconMap, k: &str, other: &'a str) -> (r: &'a str)
    ensures
        r@ == text_entry(o@, k@, other@),
{
    match o.get(k) {
        Some(v) => match v.as_str() {
            Some(s) => s,
            None => other,
        },
        None => other,
    }
}

// ---------------------------------------------------------------------------
// What holds of definitions

/// What is registered is there, under its kind and its name, in place of what
/// was there before; all else stays as it was.
pub proof fn registering_defines(
    s: Stores,
    d: DefType,
    name: Text,
    v: Val,
    d2: DefType,
    other: Text,
)
    ensures
        entry(store(defined(s, d, name, v), d), name) == Some(v),
        (d2 != d || other != name) ==> entry(store(defined(s, d, name, v), d2), other) == entry(
            store(s, d2),
            other,
        ),
{
    lemma_put(store(s, d), name, v, other);
}

/// Before anything is registered, and after all has been taken out, nothing is
/// there, and to resolve any reference fails.
pub proof fn nothing_is_defined_at_first(d: DefType, name: Text, open: Seq<Text>)
    ensures
        entry(store(no_stores(), d), name) is None,
        resolved(no_stores(), open, d, name) == Err::<Val, Text>(
            "Undefined reference: @"@ + prefix_of(d) + ":"@ + name,
        ),
{
    lemma_key_index(store(no_stores(), d), name);
}

/// Whether no entry in `v` has an object with `@ref` or `@polymorphic` as its
/// value, and no object in `v` has a key twice.
pub open spec fn is_plain(v: Val) -> bool
    decreases v, 0int,
{
    match v {
        Val::Array(a) => items_plain(a, 0),
        Val::Object(o) => distinct(o) && entries_plain(o, 0),
        _ => true,
    }
}

/// Whether no entry in the items from `i` on holds a reference.
pub open spec fn items_plain(a: Seq<Val>, i: int) -> bool
    decreases a, a.len() - i,
{
    if 0 <= i < a.len() {
        is_plain(a[i]) && items_plain(a, i + 1)
    } else {
        true
    }
}

/// Whether none of the entries from `i` on holds a reference.
pub open spec fn entries_plain(o: Entries, i: int) -> bool
    decreases o, o.len() - i,
{
    if 0 <= i < o.len() {
        is_plain(o[i].1) && (o[i].1 matches Val::Object(x) ==> !has_key(x, "@ref"@) && !has_key(
            x,
            "@polymorphic"@,
        )) && entries_plain(o, i + 1)
    } else {
        true
    }
}

/// A value without references resolves to itself.
pub proof fn lemma_resolved_plain(s: Stores, open: Seq<Text>, v: Val)
    requires
        is_plain(v),
    ensures
        resolved_inside(s, open, v) == Ok::<Val, Text>(v),
    decreases v, 0int,
{
    match v {
        Val::Object(o) => {
            assert(decreases_to!(v => o));
            assert(o.subrange(0, 0) =~= seq![]);
            lemma_resolved_entries(s, open, o, 0, seq![]);
        },
        Val::Array(a) => {
            assert(decreases_to!(v => a));
            assert(a.subrange(0, 0) =~= seq![]);
            lemma_resolved_items(s, open, a, 0, seq![]);
        },
        _ => {},
    }
}

/// Entries without references resolve to themselves.
proof fn lemma_resolved_entries(s: Stores, open: Seq<Text>, o: Entries, i: int, done: Entries)
    requires
        0 <= i <= o.len(),
        distinct(o),
        entries_plain(o, i),
        done == o.subrange(0, i),
    ensures
        resolved_entries(s, open, o, i, done) == Ok::<Entries, Text>(o),
    decreases o, o.len() - i,
{
    if i < o.len() {
        lemma_entry_smaller(o, i);
        assert(is_plain(o[i].1));
        lemma_resolved_plain(s, open, o[i].1);
        assert(resolved_field(s, open, o[i].1) == Ok::<Val, Text>(o[i].1));
        assert forall|j: int| 0 <= j < done.len() implies (#[trigger] done[j]).0 != o[i].0 by {
            assert(done[j] == o[j]);
        }
        lemma_put_new(done, o[i].0, o[i].1);
        assert(done.push(o[i]) =~= o.subrange(0, i + 1));
        assert((o[i].0, o[i].1) == o[i]);
        lemma_resolved_entries(s, open, o, i + 1, done.push(o[i]));
    } else {
        assert(done =~= o);
    }
}

/// Items without references resolve to themselves.
proof fn lemma_resolved_items(s: Stores, open: Seq<Text>, a: Seq<Val>, i: int, done: Seq<Val>)
    requires
        0 <= i <= a.len(),
        items_plain(a, i),
        done == a.subrange(0, i),
    ensures
        resolved_items(s, open, a, i, done) == Ok::<Seq<Val>, Text>(a),
    decreases a, a.len() - i,
{
    if i < a.len() {
        lemma_item_smaller(a, i);
        assert(is_plain(a[i]));
        lemma_resolved_plain(s, open, a[i]);
        assert(done.push(a[i]) =~= a.subrange(0, i + 1));
        lemma_resolved_items(s, open, a, i + 1, done.push(a[i]));
    } else {
        assert(done =~= a);
    }
}

/// A circle of references ends: one that is being resolved stands for itself.
pub proof fn a_circle_ends_in_a_marker(s: Stores, open: Seq<Text>, d: DefType, name: Text)
    requires
        has_key(store(s, d), name),
        open.contains(ref_key(d, name)),
    ensures
        resolved(s, open, d, name) == Ok::<Val, Text>(circular(name)),
{
}

/// A definition without references in it is resolved to what was registered,
/// unless it is being resolved.
pub proof fn resolving_gives_what_was_registered(
    s: Stores,
    open: Seq<Text>,
    d: DefType,
    name: Text,
    v: Val,
)
    requires
        entry(store(s, d), name) == Some(v),
        is_plain(v),
        !open.contains(ref_key(d, name)),
    ensures
        resolved(s, open, d, name) == Ok::<Val, Text>(v),
{
    lemma_resolved_plain(s, open.push(ref_key(d, name)), v);
}

// ---------------------------------------------------------------------------
// What resolving does to what is inside a definition

/// A reference with overrides to a definition without references in it is what
/// was registered with the overrides laid over it; one to nothing is an error that
/// names it, whatever the overrides.
pub proof fn resolving_lays_overrides_over(
    s: Stores,
    open: Seq<Text>,
    d: DefType,
    name: Text,
    over: Val,
)
    requires
        !open.contains(ref_key(d, name)),
    ensures
        match entry(store(s, d), name) {
            Some(v) => is_plain(v) ==> resolved_over(s, open, d, name, over) == Ok::<Val, Text>(
                overridden(v, over),
            ),
            None => resolved_over(s, open, d, name, over) == Err::<Val, Text>(
                "Undefined reference: @"@ + (match d {
                    DefType::Schema => "s"@,
                    DefType::Response => "r"@,
                    DefType::Security => "sec"@,
                }) + ":"@ + name,
            ),
        },
{
    if let Some(v) = entry(store(s, d), name) {
        if is_plain(v) {
            resolving_gives_what_was_registered(s, open, d, name, v);
        }
    }
}

/// Whether `r` is what resolving the entries of `o` before `n` one by one gives.
pub open spec fn each_field_resolved(
    s: Stores,
    open: Seq<Text>,
    o: Entries,
    r: Entries,
    n: int,
) -> bool {
    &&& r.len() == n
    &&& forall|i: int|
        0 <= i < n ==> (#[trigger] r[i]).0 == o[i].0 && resolved_field(s, open, o[i].1) == Ok::<
            Val,
            Text,
        >(r[i].1)
}

/// The entries from `i` on are resolved one by one.
proof fn lemma_fields_resolved(s: Stores, open: Seq<Text>, o: Entries, i: int, done: Entries)
    requires
        0 <= i <= o.len(),
        distinct(o),
        each_field_resolved(s, open, o, done, i),
    ensures
        match resolved_entries(s, open, o, i, done) {
            Ok(r) => each_field_resolved(s, open, o, r, o.len() as int),
            Err(e) => exists|j: int|
                0 <= j < o.len() && resolved_field(s, open, (#[trigger] o[j]).1) == Err::<Val, Text>(e),
        },
    decreases o.len() - i,
{
    if i < o.len() {
        match resolved_field(s, open, o[i].1) {
            Ok(v) => {
                assert forall|j: int| 0 <= j < done.len() implies (#[trigger] done[j]).0 != o[i].0 by {
                    assert(o[j].0 != o[i].0);
                }
                lemma_put_new(done, o[i].0, v);
                lemma_fields_resolved(s, open, o, i + 1, done.push((o[i].0, v)));
            },
            Err(e) => {
                assert(resolved_field(s, open, o[i].1) == Err::<Val, Text>(e));
            },
        }
    }
}

/// Resolving goes through the entries of an object: they keep their keys and their
/// places, and each has its value resolved. It fails only as one of them fails.
pub proof fn resolving_goes_field_by_field(s: Stores, open: Seq<Text>, o: Entries)
    requires
        distinct(o),
    ensures
        match resolved_inside(s, open, Val::Object(o)) {
            Ok(v) => v matches Val::Object(r) && each_field_resolved(
                s,
                open,
                o,
                r,
                o.len() as int,
            ),
            Err(e) => exists|j: int|
                0 <= j < o.len() && resolved_field(s, open, (#[trigger] o[j]).1) == Err::<Val, Text>(e),
        },
{
    lemma_fields_resolved(s, open, o, 0, seq![]);
}

/// The items from `i` on are resolved one by one.
proof fn lemma_each_item_resolved(
    s: Stores,
    open: Seq<Text>,
    a: Seq<Val>,
    i: int,
    done: Seq<Val>,
)
    requires
        0 <= i <= a.len(),
        done.len() == i,
        forall|j: int|
            0 <= j < i ==> resolved_inside(s, open, a[j]) == Ok::<Val, Text>(#[trigger] done[j]),
    ensures
        match resolved_items(s, open, a, i, done) {
            Ok(r) => r.len() == a.len() && forall|j: int|
                0 <= j < a.len() ==> resolved_inside(s, open, a[j]) == Ok::<Val, Text>(#[trigger] r[j]),
            Err(e) => exists|j: int|
                0 <= j < a.len() && resolved_inside(s, open, #[trigger] a[j]) == Err::<Val, Text>(e),
        },
    decreases a.len() - i,
{
    if i < a.len() {
        match resolved_inside(s, open, a[i]) {
            Ok(v) => {
                let more = done.push(v);
                assert forall|j: int| 0 <= j < i + 1 implies resolved_inside(s, open, a[j]) == Ok::<
                    Val,
                    Text,
                >(#[trigger] more[j]) by {
                    if j < i {
                        assert(more[j] == done[j]);
                    }
                }
                lemma_each_item_resolved(s, open, a, i + 1, more);
            },
            Err(e) => {
                assert(resolved_inside(s, open, a[i]) == Err::<Val, Text>(e));
            },
        }
    }
}

/// Resolving goes through the items of an array, each of which keeps its place.
/// It fails only as one of them fails.
pub proof fn resolving_goes_item_by_item(s: Stores, open: Seq<Text>, a: Seq<Val>)
    ensures
        match resolved_inside(s, open, Val::Array(a)) {
            Ok(v) => v matches Val::Array(r) && r.len() == a.len() && forall|j: int|
                0 <= j < a.len() ==> resolved_inside(s, open, a[j]) == Ok::<Val, Text>(#[trigger] r[j]),
            Err(e) => exists|j: int|
                0 <= j < a.len() && resolved_inside(s, open, #[trigger] a[j]) == Err::<Val, Text>(e),
        },
{
    lemma_each_item_resolved(s, open, a, 0, seq![]);
}

/// An entry that holds a reference under `@ref` has what it refers to, with what
/// stands under `@overrides` laid over it where that is an object.
pub proof fn a_reference_inside_is_resolved(
    s: Stores,
    open: Seq<Text>,
    o: Entries,
    r: Entries,
    d: DefType,
    name: Text,
)
    requires
        entry(o, "@ref"@) == Some(Val::Object(r)),
        entry(r, "type"@) == Some(
            Val::Str(
                match d {
                    DefType::Schema => "s"@,
                    DefType::Response => "r"@,
                    DefType::Security => "sec"@,
                },
            ),
        ),
        entry(r, "name"@) == Some(Val::Str(name)),
    ensures
        resolved_field(s, open, Val::Object(o)) == match resolved(s, open, d, name) {
            Ok(v) => Ok::<Val, Text>(
                match entry(o, "@overrides"@) {
                    Some(Val::Object(over)) => overridden(v, Val::Object(over)),
                    _ => v,
                },
            ),
            Err(e) => Err(e),
        },
{
    prefix_names_kind(d, prefix_of(d));
}

/// A definition that is not being resolved is resolved with the references in it
/// resolved, while it counts as being resolved itself.
pub proof fn a_definition_is_resolved_inside(
    s: Stores,
    open: Seq<Text>,
    d: DefType,
    name: Text,
    v: Val,
)
    requires
        entry(store(s, d), name) == Some(v),
        !open.contains(ref_key(d, name)),
    ensures
        resolved(s, open, d, name) == resolved_inside(s, open.push(ref_key(d, name)), v),
{
}

/// Whether all of `refs` name a definition, the `i`-th the one under `names[i]`
/// among the schemas.
pub open spec fn are_choices(refs: Seq<Val>, names: Seq<Text>) -> bool {
    &&& refs.len() == names.len()
    &&& forall|i: int|
        0 <= i < refs.len() ==> {
            &&& (#[trigger] refs[i]) is Object
            &&& entry(refs[i]->Object_0, "type"@) == Some(Val::Str("s"@))
            &&& entry(refs[i]->Object_0, "name"@) == Some(Val::Str(names[i]))
        }
}

/// The alternatives from `i` on are resolved one by one.
proof fn lemma_choices_resolved(
    s: Stores,
    open: Seq<Text>,
    refs: Seq<Val>,
    names: Seq<Text>,
    i: int,
    done: Seq<Val>,
)
    requires
        0 <= i <= refs.len(),
        are_choices(refs, names),
        done.len() == i,
        forall|j: int|
            0 <= j < i ==> resolved(s, open, DefType::Schema, names[j]) == Ok::<Val, Text>(
                #[trigger] done[j],
            ),
    ensures
        resolved_choices(s, open, refs, i, done) matches Ok(v) ==> {
            &&& v matches Val::Object(o) && o.len() == 1 && o[0].0 == "oneOf"@ && o[0].1 is Array
            &&& v->Object_0[0].1->Array_0.len() == refs.len()
            &&& forall|j: int|
                0 <= j < refs.len() ==> resolved(s, open, DefType::Schema, names[j]) == Ok::<
                    Val,
                    Text,
                >(#[trigger] v->Object_0[0].1->Array_0[j])
        },
        (forall|j: int|
            0 <= j < names.len() ==> resolved(s, open, DefType::Schema, #[trigger] names[j]) is Ok)
            ==> resolved_choices(s, open, refs, i, done) is Ok,
    decreases refs.len() - i,
{
    if i < refs.len() {
        assert(refs[i] is Object);
        prefix_names_kind(DefType::Schema, "s"@);
        match resolved(s, open, DefType::Schema, names[i]) {
            Ok(v) => {
                let more = done.push(v);
                assert forall|j: int| 0 <= j < i + 1 implies resolved(
                    s,
                    open,
                    DefType::Schema,
                    names[j],
                ) == Ok::<Val, Text>(#[trigger] more[j]) by {
                    if j < i {
                        assert(more[j] == done[j]);
                    }
                }
                lemma_choices_resolved(s, open, refs, names, i + 1, more);
            },
            Err(_) => {},
        }
    }
}

/// An entry that holds references under `@polymorphic` is a choice, under `oneOf`,
/// of all that they refer to, in their order.
pub proof fn a_choice_inside_is_resolved(
    s: Stores,
    open: Seq<Text>,
    o: Entries,
    refs: Seq<Val>,
    names: Seq<Text>,
)
    requires
        entry(o, "@ref"@) is None,
        entry(o, "@polymorphic"@) == Some(Val::Array(refs)),
        are_choices(refs, names),
        forall|j: int|
            0 <= j < names.len() ==> resolved(s, open, DefType::Schema, #[trigger] names[j]) is Ok,
    ensures
        resolved_field(s, open, Val::Object(o)) matches Ok(v) && {
            &&& v matches Val::Object(x) && x.len() == 1 && x[0].0 == "oneOf"@ && x[0].1 is Array
            &&& v->Object_0[0].1->Array_0.len() == refs.len()
            &&& forall|j: int|
                0 <= j < refs.len() ==> resolved(s, open, DefType::Schema, names[j]) == Ok::<
                    Val,
                    Text,
                >(#[trigger] v->Object_0[0].1->Array_0[j])
        },
{
    lemma_choices_resolved(s, open, refs, names, 0, seq![]);
}

} // verus!
