//! Checking values: their shape, the fields that a specification asks for, and
//! the fields of a schema.

use vstd::prelude::*;
use crate::schema_registry::string_texts;
use crate::text::{chars_of, owned, part, same_text, Text};
use crate::treehash::{below, child_path};
use crate::value::{
    distinct, entry, has_key, is_simple, key_index, lemma_entry_found, lemma_key_index, Entries,
    SconMap, Val, Value,
};

verus! {

// ---------------------------------------------------------------------------
// What is reported

/// What becomes of an issue: nothing, a warning, or an error.
#[derive(Debug, Clone, Copy, PartialEq, Eq, Structural)]
pub enum ValidationMode {
    Loose,
    Warn,
    Strict,
}

/// The warnings and the errors.
pub struct Report {
    pub warnings: Seq<Text>,
    pub errors: Seq<Text>,
}

/// Nothing to report.
pub open spec fn no_report() -> Report {
    Report { warnings: seq![], errors: seq![] }
}

/// The report with an issue in it: an error in strict mode, a warning in warn
/// mode, and nothing in loose mode.
pub open spec fn with_issue(r: Report, mode: ValidationMode, message: Text) -> Report {
    match mode {
        ValidationMode::Strict => Report { errors: r.errors.push(message), ..r },
        ValidationMode::Warn => Report { warnings: r.warnings.push(message), ..r },
        ValidationMode::Loose => r,
    }
}

/// The report with an issue for each of `fields` from the `i`-th on that `o`
/// lacks. `start` is what the issue says before the field.
pub open spec fn with_missing(
    r: Report,
    mode: ValidationMode,
    o: Entries,
    fields: Seq<Text>,
    start: Text,
    i: int,
) -> Report
    decreases fields.len() - i,
{
    if 0 <= i < fields.len() {
        with_missing(
            if has_key(o, fields[i]) {
                r
            } else {
                with_issue(r, mode, start + fields[i])
            },
            mode,
            o,
            fields,
            start,
            i + 1,
        )
    } else {
        r
    }
}

/// Whether `spec` is a specification that can be enforced.
pub open spec fn is_known_spec(spec: Text) -> bool {
    spec == "openapi:3.1"@ || spec == "openapi:3.0"@
}

/// The report with the issues that `o` has under the specification `spec`: an
/// API description has `openapi`, `info` and `paths`, and its `info` has `title`
/// and `version`.
pub open spec fn with_spec(r: Report, mode: ValidationMode, o: Entries, spec: Text) -> Report {
    if is_known_spec(spec) {
        let start = "Missing required field per "@ + spec + ": "@;
        let top = with_missing(
            r,
            mode,
            o,
            seq!["openapi"@, "info"@, "paths"@],
            start,
            0,
        );
        match entry(o, "info"@) {
            Some(Val::Object(i)) => with_missing(
                top,
                mode,
                i,
                seq!["title"@, "version"@],
                start + "info."@,
                0,
            ),
            _ => top,
        }
    } else {
        r
    }
}

/// What is reported of a value.
pub open spec fn value_report(mode: ValidationMode, enforce: Option<Text>, v: Val) -> Report {
    let r = if is_simple(v) {
        with_issue(no_report(), mode, "Root value must be an object or array"@)
    } else {
        no_report()
    };
    match (enforce, v) {
        (Some(spec), Val::Object(o)) => with_spec(r, mode, o, spec),
        _ => r,
    }
}

/// What is reported of a schema.
pub open spec fn schema_report(
    mode: ValidationMode,
    name: Text,
    schema: Val,
) -> Report {
    match schema {
        Val::Object(o) => if o.len() == 0 {
            with_issue(no_report(), mode, "Schema '"@ + name + "' is empty"@)
        } else {
            no_report()
        },
        _ => no_report(),
    }
}

/// Whether the schema asks for the field: its key ends in an exclamation mark.
pub open spec fn is_required(k: Text) -> bool {
    k.len() > 0 && k.last() == '!'
}

/// `k` without the exclamation marks at its end.
pub open spec fn field_name(k: Text) -> Text
    decreases k.len(),
{
    if k.len() > 0 && k.last() == '!' {
        field_name(k.drop_last())
    } else {
        k
    }
}

/// The report with an issue for each required field of the schema from the
/// `i`-th on that `o` lacks.
pub open spec fn with_required(
    r: Report,
    mode: ValidationMode,
    o: Entries,
    schema: Entries,
    path: Text,
    i: int,
) -> Report
    decreases schema.len() - i,
{
    if 0 <= i < schema.len() {
        let k = schema[i].0;
        with_required(
            if is_required(k) && !has_key(o, k.drop_last()) {
                with_issue(
                    r,
                    mode,
                    "Missing required field: "@ + below(path, k.drop_last()),
                )
            } else {
                r
            },
            mode,
            o,
            schema,
            path,
            i + 1,
        )
    } else {
        r
    }
}

/// Whether the schema has a field of the name `k` from the `i`-th on.
pub open spec fn names_field(schema: Entries, k: Text, i: int) -> bool
    decreases schema.len() - i,
{
    if 0 <= i < schema.len() {
        field_name(schema[i].0) == k || names_field(schema, k, i + 1)
    } else {
        false
    }
}

/// The report with a remark on each entry of `o` from the `i`-th on that the
/// schema does not name: an error in strict mode, a warning in warn mode.
pub open spec fn with_extra(
    r: Report,
    mode: ValidationMode,
    o: Entries,
    schema: Entries,
    path: Text,
    i: int,
) -> Report
    decreases o.len() - i,
{
    if 0 <= i < o.len() {
        let k = o[i].0;
        with_extra(
            if names_field(schema, k, 0) {
                r
            } else {
                match mode {
                    ValidationMode::Strict => Report {
                        errors: r.errors.push("Extra field not in schema: "@ + below(path, k)),
                        ..r
                    },
                    ValidationMode::Warn => Report {
                        warnings: r.warnings.push("Extra field: "@ + below(path, k)),
                        ..r
                    },
                    ValidationMode::Loose => r,
                }
            },
            mode,
            o,
            schema,
            path,
            i + 1,
        )
    } else {
        r
    }
}

/// What is reported of a value against a schema.
pub open spec fn match_report(
    mode: ValidationMode,
    v: Val,
    schema: Val,
    path: Text,
) -> Report {
    match (v, schema) {
        (Val::Object(o), Val::Object(s)) => with_extra(
            with_required(no_report(), mode, o, s, path, 0),
            mode,
            o,
            s,
            path,
            0,
        ),
        _ => no_report(),
    }
}

// ---------------------------------------------------------------------------
// Laws

/// No required field is reported in loose mode.
proof fn lemma_required_loose(r: Report, o: Entries, s: Entries, path: Text, i: int)
    ensures
        with_required(r, ValidationMode::Loose, o, s, path, i) == r,
    decreases s.len() - i,
{
    if 0 <= i < s.len() {
        lemma_required_loose(r, o, s, path, i + 1);
    }
}

/// No extra field is reported in loose mode.
proof fn lemma_extra_loose(r: Report, o: Entries, s: Entries, path: Text, i: int)
    ensures
        with_extra(r, ValidationMode::Loose, o, s, path, i) == r,
    decreases o.len() - i,
{
    if 0 <= i < o.len() {
        lemma_extra_loose(r, o, s, path, i + 1);
    }
}

/// No missing field is reported in loose mode.
proof fn lemma_missing_loose(r: Report, o: Entries, fields: Seq<Text>, start: Text, i: int)
    ensures
        with_missing(r, ValidationMode::Loose, o, fields, start, i) == r,
    decreases fields.len() - i,
{
    if 0 <= i < fields.len() {
        lemma_missing_loose(r, o, fields, start, i + 1);
    }
}

/// A missing field is no error in warn mode.
proof fn lemma_missing_warn(r: Report, o: Entries, fields: Seq<Text>, start: Text, i: int)
    ensures
        with_missing(r, ValidationMode::Warn, o, fields, start, i).errors == r.errors,
    decreases fields.len() - i,
{
    if 0 <= i < fields.len() {
        let next = if has_key(o, fields[i]) {
            r
        } else {
            with_issue(r, ValidationMode::Warn, start + fields[i])
        };
        lemma_missing_warn(next, o, fields, start, i + 1);
    }
}

/// In loose mode nothing is reported, whatever the value, the schema and the
/// specification that is enforced.
pub proof fn loose_mode_is_silent(
    v: Val,
    schema: Val,
    enforce: Option<Text>,
    name: Text,
    path: Text,
)
    ensures
        value_report(ValidationMode::Loose, enforce, v) == no_report(),
        schema_report(ValidationMode::Loose, name, schema) == no_report(),
        match_report(ValidationMode::Loose, v, schema, path) == no_report(),
{
    if let (Some(spec), Val::Object(o)) = (enforce, v) {
        let start = "Missing required field per "@ + spec + ": "@;
        lemma_missing_loose(
            no_report(),
            o,
            seq!["openapi"@, "info"@, "paths"@],
            start,
            0,
        );
        if let Some(Val::Object(i)) = entry(o, "info"@) {
            lemma_missing_loose(no_report(), i, seq!["title"@, "version"@], start + "info."@, 0);
        }
    }
    if let (Val::Object(o), Val::Object(s)) = (v, schema) {
        lemma_required_loose(no_report(), o, s, path, 0);
        lemma_extra_loose(no_report(), o, s, path, 0);
    }
}

/// A required field is no error in warn mode.
proof fn lemma_required_warn(r: Report, o: Entries, s: Entries, path: Text, i: int)
    ensures
        with_required(r, ValidationMode::Warn, o, s, path, i).errors == r.errors,
    decreases s.len() - i,
{
    if 0 <= i < s.len() {
        let k = s[i].0;
        let next = if is_required(k) && !has_key(o, k.drop_last()) {
            with_issue(
                r,
                ValidationMode::Warn,
                "Missing required field: "@ + below(path, k.drop_last()),
            )
        } else {
            r
        };
        lemma_required_warn(next, o, s, path, i + 1);
    }
}

/// An extra field is no error in warn mode.
proof fn lemma_extra_warn(r: Report, o: Entries, s: Entries, path: Text, i: int)
    ensures
        with_extra(r, ValidationMode::Warn, o, s, path, i).errors == r.errors,
    decreases o.len() - i,
{
    if 0 <= i < o.len() {
        let k = o[i].0;
        let next = if names_field(s, k, 0) {
            r
        } else {
            Report { warnings: r.warnings.push("Extra field: "@ + below(path, k)), ..r }
        };
        lemma_extra_warn(next, o, s, path, i + 1);
    }
}

/// In warn mode nothing is an error, whatever the value, the schema and the
/// specification that is enforced.
pub proof fn warn_mode_has_no_errors(
    v: Val,
    schema: Val,
    enforce: Option<Text>,
    name: Text,
    path: Text,
)
    ensures
        value_report(ValidationMode::Warn, enforce, v).errors == Seq::<Text>::empty(),
        schema_report(ValidationMode::Warn, name, schema).errors == Seq::<Text>::empty(),
        match_report(ValidationMode::Warn, v, schema, path).errors == Seq::<Text>::empty(),
{
    if let (Some(spec), Val::Object(o)) = (enforce, v) {
        let start = "Missing required field per "@ + spec + ": "@;
        let fields = seq!["openapi"@, "info"@, "paths"@];
        let top = with_missing(no_report(), ValidationMode::Warn, o, fields, start, 0);
        lemma_missing_warn(no_report(), o, fields, start, 0);
        if let Some(Val::Object(i)) = entry(o, "info"@) {
            lemma_missing_warn(top, i, seq!["title"@, "version"@], start + "info."@, 0);
        }
    }
    if let (Val::Object(o), Val::Object(s)) = (v, schema) {
        lemma_required_warn(no_report(), o, s, path, 0);
        lemma_extra_warn(
            with_required(no_report(), ValidationMode::Warn, o, s, path, 0),
            o,
            s,
            path,
            0,
        );
    }
}

/// Whether `o` has every field from the `i`-th on that the schema `s` asks for.
pub open spec fn has_required(o: Entries, s: Entries, i: int) -> bool {
    forall|j: int|
        i <= j < s.len() && is_required((#[trigger] s[j]).0) ==> has_key(o, s[j].0.drop_last())
}

/// Whether the schema `s` names every field of `o` from the `i`-th on.
pub open spec fn has_only_named(o: Entries, s: Entries, i: int) -> bool {
    forall|j: int| i <= j < o.len() ==> names_field(s, (#[trigger] o[j]).0, 0)
}

/// In strict mode a required field that is missing is an error.
proof fn lemma_required_strict(
    r: Report,
    o: Entries,
    s: Entries,
    path: Text,
    i: int,
)
    requires
        0 <= i <= s.len(),
    ensures
        ({
            let q = with_required(r, ValidationMode::Strict, o, s, path, i);
            &&& q.warnings == r.warnings
            &&& q.errors.len() >= r.errors.len()
            &&& q.errors.len() == r.errors.len() <==> has_required(o, s, i)
        }),
    decreases s.len() - i,
{
    if i < s.len() {
        let k = s[i].0;
        let missing = is_required(k) && !has_key(o, k.drop_last());
        let next = if missing {
            with_issue(
                r,
                ValidationMode::Strict,
                "Missing required field: "@ + below(path, k.drop_last()),
            )
        } else {
            r
        };
        lemma_required_strict(next, o, s, path, i + 1);
        assert(has_required(o, s, i) <==> !missing && has_required(o, s, i + 1)) by {
            if !missing && has_required(o, s, i + 1) {
                assert forall|j: int| i <= j < s.len() && is_required((#[trigger] s[j]).0) implies has_key(
                    o,
                    s[j].0.drop_last(),
                ) by {
                    if j > i {
                        assert(is_required(s[j].0));
                    }
                }
            }
        }
    }
}

/// In strict mode a field that the schema does not name is an error.
proof fn lemma_extra_strict(r: Report, o: Entries, s: Entries, path: Text, i: int)
    requires
        0 <= i <= o.len(),
    ensures
        ({
            let q = with_extra(r, ValidationMode::Strict, o, s, path, i);
            &&& q.warnings == r.warnings
            &&& q.errors.len() >= r.errors.len()
            &&& q.errors.len() == r.errors.len() <==> has_only_named(o, s, i)
        }),
    decreases o.len() - i,
{
    if i < o.len() {
        let k = o[i].0;
        let next = if names_field(s, k, 0) {
            r
        } else {
            Report { errors: r.errors.push("Extra field not in schema: "@ + below(path, k)), ..r }
        };
        lemma_extra_strict(next, o, s, path, i + 1);
        assert(has_only_named(o, s, i) <==> names_field(s, k, 0) && has_only_named(o, s, i + 1)) by {
            if names_field(s, k, 0) && has_only_named(o, s, i + 1) {
                assert forall|j: int| i <= j < o.len() implies names_field(
                    s,
                    (#[trigger] o[j]).0,
                    0,
                ) by {
                    if j > i {
                        assert(names_field(s, o[j].0, 0));
                    }
                }
            }
        }
    }
}

/// In strict mode nothing is a warning, and an object passes a schema exactly
/// where it has every field that the schema asks for and none that the schema
/// does not name.
pub proof fn strict_mode_accepts_what_fits(o: Entries, s: Entries, path: Text)
    ensures
        ({
            let q = match_report(
                ValidationMode::Strict,
                Val::Object(o),
                Val::Object(s),
                path,
            );
            &&& q.warnings == Seq::<Text>::empty()
            &&& q.errors.len() == 0 <==> has_required(o, s, 0) && has_only_named(o, s, 0)
        }),
{
    let mid = with_required(no_report(), ValidationMode::Strict, o, s, path, 0);
    lemma_required_strict(no_report(), o, s, path, 0);
    lemma_extra_strict(mid, o, s, path, 0);
}

/// Whether an object has an entry under `k`.
pub open spec fn is_field(o: Entries, k: Text) -> bool {
    exists|j: int| 0 <= j < o.len() && (#[trigger] o[j]).0 == k
}

/// An object has a key exactly where one of its entries stands under it.
proof fn lemma_is_field(o: Entries, k: Text)
    ensures
        has_key(o, k) <==> is_field(o, k),
        forall|j: int| 0 <= j < o.len() && distinct(o) && (#[trigger] o[j]).0 == k ==> entry(o, k)
            == Some(o[j].1),
{
    lemma_key_index(o, k);
    if has_key(o, k) {
        assert(o[key_index(o, k)].0 == k);
    }
    assert forall|j: int| 0 <= j < o.len() && distinct(o) && (#[trigger] o[j]).0 == k implies entry(
        o,
        k,
    ) == Some(o[j].1) by {
        lemma_entry_found(o, j);
    }
    if is_field(o, k) {
        let j = choose|j: int| 0 <= j < o.len() && (#[trigger] o[j]).0 == k;
        lemma_entry_found(o, j);
    }
}

/// The message that `f` is missing, or none where `o` has it.
pub open spec fn lack(o: Entries, start: Text, f: Text) -> Seq<Text> {
    if is_field(o, f) {
        seq![]
    } else {
        seq![start + f]
    }
}

/// What an object that a specification is enforced on lacks, by the entries
/// that it has: `openapi`, `info` and `paths`, and in an `info` that is an object
/// `title` and `version`.
proof fn lemma_spec_issues(o: Entries, spec: Text, mode: ValidationMode)
    requires
        spec == "openapi:3.1"@ || spec == "openapi:3.0"@,
    ensures
        ({
            let q = value_report(mode, Some(spec), Val::Object(o));
            let start = "Missing required field per "@ + spec + ": "@;
            let top = lack(o, start, "openapi"@) + lack(o, start, "info"@) + lack(
                o,
                start,
                "paths"@,
            );
            let all = match entry(o, "info"@) {
                Some(Val::Object(i)) => top + lack(i, start + "info."@, "title"@) + lack(
                    i,
                    start + "info."@,
                    "version"@,
                ),
                _ => top,
            };
            &&& q.errors == if mode == ValidationMode::Strict {
                all
            } else {
                seq![]
            }
            &&& q.warnings == if mode == ValidationMode::Warn {
                all
            } else {
                seq![]
            }
        }),
{
    reveal_with_fuel(with_missing, 4);
    let start = "Missing required field per "@ + spec + ": "@;
    let q = value_report(mode, Some(spec), Val::Object(o));
    lemma_is_field(o, "openapi"@);
    lemma_is_field(o, "info"@);
    lemma_is_field(o, "paths"@);
    let fields = seq!["openapi"@, "info"@, "paths"@];
    let more = seq!["title"@, "version"@];
    let top = lack(o, start, "openapi"@) + lack(o, start, "info"@) + lack(o, start, "paths"@);
    let r = with_missing(no_report(), mode, o, fields, start, 0);
    let none: Seq<Text> = seq![];
    assert(r.errors =~= if mode == ValidationMode::Strict {
        top
    } else {
        none
    });
    assert(r.warnings =~= if mode == ValidationMode::Warn {
        top
    } else {
        none
    });
    if let Some(Val::Object(i)) = entry(o, "info"@) {
        let deeper = start + "info."@;
        lemma_is_field(i, "title"@);
        lemma_is_field(i, "version"@);
        let all = top + lack(i, deeper, "title"@) + lack(i, deeper, "version"@);
        let w = with_missing(r, mode, i, more, deeper, 0);
        assert(w.errors =~= if mode == ValidationMode::Strict {
            all
        } else {
            none
        });
        assert(w.warnings =~= if mode == ValidationMode::Warn {
            all
        } else {
            none
        });
    }
}

/// Where a specification is enforced that is known, what is said of an object is
/// what it lacks, in the order of the fields that are asked for: `openapi`,
/// `info` and `paths`, and in an `info` that is an object `title` and `version`.
/// These are errors in strict mode and warnings in warn mode, and nothing else is
/// said.
pub proof fn a_description_is_told_what_it_lacks(o: Entries, spec: Text, mode: ValidationMode)
    requires
        spec == "openapi:3.1"@ || spec == "openapi:3.0"@,
        distinct(o),
    ensures
        ({
            let q = value_report(mode, Some(spec), Val::Object(o));
            let start = "Missing required field per "@ + spec + ": "@;
            let top = lack(o, start, "openapi"@) + lack(o, start, "info"@) + lack(
                o,
                start,
                "paths"@,
            );
            let said = match mode {
                ValidationMode::Strict => q.errors,
                _ => q.warnings,
            };
            let unsaid = match mode {
                ValidationMode::Strict => q.warnings,
                _ => q.errors,
            };
            &&& unsaid == Seq::<Text>::empty()
            &&& mode == ValidationMode::Loose ==> said == Seq::<Text>::empty()
            &&& mode != ValidationMode::Loose ==> {
                &&& forall|j: int|
                    0 <= j < o.len() && (#[trigger] o[j]).0 == "info"@ && o[j].1 is Object ==> said
                        == top + lack(o[j].1->Object_0, start + "info."@, "title"@) + lack(
                        o[j].1->Object_0,
                        start + "info."@,
                        "version"@,
                    )
                &&& (forall|j: int|
                    0 <= j < o.len() && (#[trigger] o[j]).0 == "info"@ ==> !(o[j].1 is Object)) ==> said
                    == top
            }
        }),
{
    lemma_spec_issues(o, spec, mode);
    lemma_is_field(o, "info"@);
    lemma_key_index(o, "info"@);
}

/// In strict mode with a known specification an object is valid exactly where it
/// has `openapi`, `info` and `paths` and, where its `info` is an object, that has
/// `title` and `version`.
pub proof fn a_description_is_valid_where_it_is_complete(o: Entries, spec: Text)
    requires
        spec == "openapi:3.1"@ || spec == "openapi:3.0"@,
        distinct(o),
    ensures
        value_report(ValidationMode::Strict, Some(spec), Val::Object(o)).errors.len() == 0 <==> {
            &&& has_key(o, "openapi"@)
            &&& has_key(o, "info"@)
            &&& has_key(o, "paths"@)
            &&& entry(o, "info"@) matches Some(Val::Object(i)) ==> has_key(i, "title"@) && has_key(
                i,
                "version"@,
            )
        },
{
    lemma_spec_issues(o, spec, ValidationMode::Strict);
    lemma_is_field(o, "openapi"@);
    lemma_is_field(o, "info"@);
    lemma_is_field(o, "paths"@);
    if let Some(Val::Object(i)) = entry(o, "info"@) {
        lemma_is_field(i, "title"@);
        lemma_is_field(i, "version"@);
    }
}

/// Without a specification, or with one that is not known, and of anything but an
/// object all that is said is that a primitive is no document.
pub proof fn only_a_primitive_is_no_document(v: Val, enforce: Option<Text>, mode: ValidationMode)
    requires
        enforce matches Some(spec) ==> !(v is Object) || (spec != "openapi:3.1"@ && spec
            != "openapi:3.0"@),
    ensures
        ({
            let q = value_report(mode, enforce, v);
            let none: Seq<Text> = seq![];
            let all = if v is Object || v is Array {
                none
            } else {
                seq!["Root value must be an object or array"@]
            };
            &&& q.errors == if mode == ValidationMode::Strict {
                all
            } else {
                none
            }
            &&& q.warnings == if mode == ValidationMode::Warn {
                all
            } else {
                none
            }
        }),
{
    let q = value_report(mode, enforce, v);
    let none: Seq<Text> = seq![];
    let one = seq!["Root value must be an object or array"@];
    assert(none.push(one[0]) =~= one);
}

/// A schema is told that it is empty exactly where it is an object without
/// entries.
pub proof fn a_schema_is_told_that_it_is_empty(schema: Val, name: Text, mode: ValidationMode)
    ensures
        ({
            let q = schema_report(mode, name, schema);
            let none: Seq<Text> = seq![];
            let all = if schema == Val::Object(seq![]) {
                seq!["Schema '"@ + name + "' is empty"@]
            } else {
                none
            };
            &&& q.errors == if mode == ValidationMode::Strict {
                all
            } else {
                none
            }
            &&& q.warnings == if mode == ValidationMode::Warn {
                all
            } else {
                none
            }
        }),
{
    let none: Seq<Text> = seq![];
    let one = seq!["Schema '"@ + name + "' is empty"@];
    assert(none.push(one[0]) =~= one);
    if let Val::Object(o) = schema {
        if o.len() == 0 {
            assert(o =~= seq![]);
        }
    }
}

/// The path of a field.
pub open spec fn dotted(path: Text, k: Text) -> Text {
    if path.len() == 0 {
        k
    } else {
        path + seq!['.'] + k
    }
}

/// What is said of an entry of a schema that ends with an exclamation mark, where
/// `o` has no such field.
pub open spec fn unmet(o: Entries, path: Text, e: (Text, Val)) -> Option<Text> {
    if e.0.len() > 0 && e.0[e.0.len() - 1] == '!' && !is_field(o, e.0.subrange(0, e.0.len() - 1)) {
        Some("Missing required field: "@ + dotted(path, e.0.subrange(0, e.0.len() - 1)))
    } else {
        None
    }
}

/// Whether an entry of the schema is the key `k` and any number of exclamation
/// marks behind it, where `k` ends with none.
pub open spec fn is_foreseen(s: Entries, k: Text) -> bool {
    exists|j: int, n: nat|
        0 <= j < s.len() && (#[trigger] s[j]).0 == k + #[trigger] marks_of(n) && (k.len() == 0
            || k[k.len() - 1] != '!')
}

/// A row of exclamation marks.
pub open spec fn marks_of(n: nat) -> Text {
    Seq::new(n, |i: int| '!')
}

/// What is said of an entry that no entry of the schema foresees.
pub open spec fn unforeseen(s: Entries, path: Text, start: Text, e: (Text, Val)) -> Option<Text> {
    if is_foreseen(s, e.0) {
        None
    } else {
        Some(start + dotted(path, e.0))
    }
}

/// A key without the marks at its end, and the marks.
proof fn lemma_field_name(k: Text) -> (n: nat)
    ensures
        k == field_name(k) + marks_of(n),
        field_name(k).len() == 0 || field_name(k).last() != '!',
    decreases k.len(),
{
    if k.len() > 0 && k.last() == '!' {
        let n = lemma_field_name(k.drop_last());
        assert(marks_of(n + 1) =~= marks_of(n).push('!'));
        assert(k =~= k.drop_last().push('!'));
        assert(k =~= field_name(k) + marks_of(n + 1));
        n + 1
    } else {
        assert(k =~= field_name(k) + marks_of(0));
        0
    }
}

/// A key with marks behind it, without them.
proof fn lemma_marked(k: Text, n: nat)
    requires
        k.len() == 0 || k[k.len() - 1] != '!',
    ensures
        field_name(k + marks_of(n)) == k,
    decreases n,
{
    if n > 0 {
        lemma_marked(k, (n - 1) as nat);
        assert((k + marks_of(n)).drop_last() =~= k + marks_of((n - 1) as nat));
    } else {
        assert(k + marks_of(0) =~= k);
    }
}

/// A schema names a field where it foresees it.
proof fn lemma_names_field(s: Entries, k: Text, i: int)
    requires
        0 <= i <= s.len(),
    ensures
        names_field(s, k, i) <==> exists|j: int| i <= j < s.len() && field_name((#[trigger] s[j]).0) == k,
        i == 0 ==> (names_field(s, k, i) <==> is_foreseen(s, k)),
    decreases s.len() - i,
{
    if i < s.len() {
        lemma_names_field(s, k, i + 1);
        if names_field(s, k, i + 1) {
            let j = choose|j: int| i + 1 <= j < s.len() && field_name((#[trigger] s[j]).0) == k;
            assert(i <= j < s.len() && field_name(s[j].0) == k);
        }
    }
    if i == 0 {
        if names_field(s, k, 0) {
            let j = choose|j: int| 0 <= j < s.len() && field_name((#[trigger] s[j]).0) == k;
            let n = lemma_field_name(s[j].0);
            assert(s[j].0 == k + marks_of(n));
            assert(is_foreseen(s, k));
        }
        if is_foreseen(s, k) {
            let (j, n) = choose|j: int, n: nat|
                0 <= j < s.len() && (#[trigger] s[j]).0 == k + #[trigger] marks_of(n) && (k.len() == 0
                    || k[k.len() - 1] != '!');
            lemma_marked(k, n);
            assert(field_name(s[j].0) == k);
        }
    }
}

/// The report with more said in it.
pub open spec fn told(r: Report, mode: ValidationMode, more: Seq<Text>) -> Report {
    match mode {
        ValidationMode::Strict => Report { errors: r.errors + more, ..r },
        ValidationMode::Warn => Report { warnings: r.warnings + more, ..r },
        ValidationMode::Loose => r,
    }
}

/// One more entry of the schema.
proof fn lemma_required_told(r: Report, mode: ValidationMode, o: Entries, s: Entries, path: Text, i: int)
    requires
        0 <= i <= s.len(),
    ensures
        ({
            let f = |e: (Text, Val)| unmet(o, path, e);
            with_required(told(r, mode, s.take(i).filter_map(f)), mode, o, s, path, i) == told(
                r,
                mode,
                s.filter_map(f),
            )
        }),
    decreases s.len() - i,
{
    let f = |e: (Text, Val)| unmet(o, path, e);
    let now = told(r, mode, s.take(i).filter_map(f));
    if i < s.len() {
        let k = s[i].0;
        let next = s.take(i + 1);
        assert(next.drop_last() =~= s.take(i));
        assert(next.last() == s[i]);
        if k.len() > 0 {
            assert(k.drop_last() =~= k.subrange(0, k.len() - 1));
            lemma_is_field(o, k.drop_last());
            reveal_strlit(".");
            assert(below(path, k.drop_last()) =~= dotted(path, k.drop_last()));
        }
        let then = if is_required(k) && !has_key(o, k.drop_last()) {
            with_issue(now, mode, "Missing required field: "@ + below(path, k.drop_last()))
        } else {
            now
        };
        assert(then.errors =~= told(r, mode, next.filter_map(f)).errors);
        assert(then.warnings =~= told(r, mode, next.filter_map(f)).warnings);
        lemma_required_told(r, mode, o, s, path, i + 1);
    } else {
        assert(s.take(i) =~= s);
    }
}

/// One more entry of the object.
proof fn lemma_extra_told(r: Report, mode: ValidationMode, o: Entries, s: Entries, path: Text, i: int)
    requires
        0 <= i <= o.len(),
    ensures
        ({
            let start = if mode == ValidationMode::Strict {
                "Extra field not in schema: "@
            } else {
                "Extra field: "@
            };
            let f = |e: (Text, Val)| unforeseen(s, path, start, e);
            with_extra(told(r, mode, o.take(i).filter_map(f)), mode, o, s, path, i) == told(
                r,
                mode,
                o.filter_map(f),
            )
        }),
    decreases o.len() - i,
{
    let start = if mode == ValidationMode::Strict {
        "Extra field not in schema: "@
    } else {
        "Extra field: "@
    };
    let f = |e: (Text, Val)| unforeseen(s, path, start, e);
    let now = told(r, mode, o.take(i).filter_map(f));
    if i < o.len() {
        let k = o[i].0;
        let next = o.take(i + 1);
        assert(next.drop_last() =~= o.take(i));
        assert(next.last() == o[i]);
        lemma_names_field(s, k, 0);
        reveal_strlit(".");
        assert(below(path, k) =~= dotted(path, k));
        let want = told(r, mode, next.filter_map(f));
        let then = if names_field(s, k, 0) {
            now
        } else {
            match mode {
                ValidationMode::Strict => Report {
                    errors: now.errors.push("Extra field not in schema: "@ + below(path, k)),
                    ..now
                },
                ValidationMode::Warn => Report {
                    warnings: now.warnings.push("Extra field: "@ + below(path, k)),
                    ..now
                },
                ValidationMode::Loose => now,
            }
        };
        assert(then.errors =~= want.errors);
        assert(then.warnings =~= want.warnings);
        lemma_extra_told(r, mode, o, s, path, i + 1);
    } else {
        assert(o.take(i) =~= o);
    }
}

/// What is said of an object against a schema: a message for each entry of the
/// schema that is marked as required and that the object lacks, in the order of
/// the schema, and behind these one for each entry of the object that the schema
/// does not foresee, in the order of the object. These are errors in strict mode
/// and warnings in warn mode, and nothing else is said.
pub proof fn a_schema_is_held_against_each_field(
    o: Entries,
    s: Entries,
    path: Text,
    mode: ValidationMode,
)
    ensures
        ({
            let q = match_report(mode, Val::Object(o), Val::Object(s), path);
            let start = if mode == ValidationMode::Strict {
                "Extra field not in schema: "@
            } else {
                "Extra field: "@
            };
            let all = s.filter_map(|e: (Text, Val)| unmet(o, path, e)) + o.filter_map(
                |e: (Text, Val)| unforeseen(s, path, start, e),
            );
            let none: Seq<Text> = seq![];
            &&& q.errors == if mode == ValidationMode::Strict {
                all
            } else {
                none
            }
            &&& q.warnings == if mode == ValidationMode::Warn {
                all
            } else {
                none
            }
        }),
{
    let none: Seq<Text> = seq![];
    let start = if mode == ValidationMode::Strict {
        "Extra field not in schema: "@
    } else {
        "Extra field: "@
    };
    let f = |e: (Text, Val)| unmet(o, path, e);
    let g = |e: (Text, Val)| unforeseen(s, path, start, e);
    let one = told(no_report(), mode, s.filter_map(f));
    assert(s.take(0).filter_map(f) =~= none);
    assert(o.take(0).filter_map(g) =~= none);
    assert(told(no_report(), mode, none).errors =~= none);
    assert(told(no_report(), mode, none).warnings =~= none);
    assert(told(one, mode, none).errors =~= one.errors);
    assert(told(one, mode, none).warnings =~= one.warnings);
    lemma_required_told(no_report(), mode, o, s, path, 0);
    lemma_extra_told(one, mode, o, s, path, 0);
    let q = match_report(mode, Val::Object(o), Val::Object(s), path);
    let all = s.filter_map(f) + o.filter_map(g);
    assert(q == told(one, mode, o.filter_map(g)));
    assert(told(one, mode, o.filter_map(g)).errors =~= if mode == ValidationMode::Strict {
        all
    } else {
        none
    });
    assert(told(one, mode, o.filter_map(g)).warnings =~= if mode == ValidationMode::Warn {
        all
    } else {
        none
    });
}

/// Nothing is held against what is no object, or by a schema that is none.
pub proof fn only_objects_are_held_against_a_schema(
    v: Val,
    schema: Val,
    path: Text,
    mode: ValidationMode,
)
    requires
        !(v is Object) || !(schema is Object),
    ensures
        match_report(mode, v, schema, path).errors == Seq::<Text>::empty(),
        match_report(mode, v, schema, path).warnings == Seq::<Text>::empty(),
{
}

// ---------------------------------------------------------------------------
// The validator

/// What was found, and how it was looked for.
#[derive(Debug, Clone)]
pub struct ValidationResult {
    pub valid: bool,
    pub warnings: Vec<String>,
    pub errors: Vec<String>,
    pub mode: ValidationMode,
    pub enforce: Option<String>,
}

/// The text of an optional string.
pub open spec fn opt_string(o: Option<String>) -> Option<Text> {
    match o {
        Some(s) => Some(s@),
        None => None,
    }
}

/// The warnings and the errors as they are collected.
pub open spec fn report_of(warnings: Seq<String>, errors: Seq<String>) -> Report {
    Report { warnings: string_texts(warnings), errors: string_texts(errors) }
}

impl ValidationResult {
    /// Whether the result says what the report says: it is valid where there is
    /// no error, and it tells how it was looked for.
    pub open spec fn says(&self, r: Report, mode: ValidationMode, enforce: Option<Text>) -> bool {
        &&& report_of(self.warnings@, self.errors@) == r
        &&& self.valid == (r.errors.len() == 0)
        &&& self.mode == mode
        &&& opt_string(self.enforce) == enforce
    }
}

/// Checks values in one of the modes, and where it is asked to, against a
/// specification.
pub struct Validator {
    mode: ValidationMode,
    enforce: Option<String>,
}

impl Validator {
    /// The mode of the validator.
    pub closed spec fn mode(&self) -> ValidationMode {
        self.mode
    }

    /// The specification that is enforced.
    pub closed spec fn enforced(&self) -> Option<Text> {
        opt_string(self.enforce)
    }

    /// A validator in a mode, which enforces no specification.
    pub fn new(mode: ValidationMode) -> (r: Validator)
        ensures
            r.mode() == mode,
            r.enforced() is None,
    {
        Validator { mode, enforce: None }
    }

    /// The validator with a specification to enforce.
    pub fn with_enforce(self, spec: &str) -> (r: Validator)
        ensures
            r.mode() == self.mode(),
            r.enforced() == Some(spec@),
    {
        Validator { mode: self.mode, enforce: Some(owned(spec)) }
    }

    /// Checks that a value is an object or an array, and what the specification
    /// asks for.
    pub fn validate(&self, data: &Value) -> (r: ValidationResult)
        ensures
            r.says(value_report(self.mode(), self.enforced(), data@), self.mode(), self.enforced()),
            r.valid <==> r.errors@.len() == 0,
    {
        let mut warnings: Vec<String> = Vec::new();
        let mut errors: Vec<String> = Vec::new();
        assert(report_of(warnings@, errors@).warnings =~= seq![]);
        assert(report_of(warnings@, errors@).errors =~= seq![]);
        if data.is_primitive() {
            add_issue(
                &self.mode,
                "Root value must be an object or array",
                &mut warnings,
                &mut errors,
            );
        }
        if let Some(spec) = &self.enforce {
            if let Value::Object(o) = data {
                self.enforce_spec(o, spec.as_str(), &mut warnings, &mut errors);
            }
        }
        self.finish(warnings, errors)
    }

    /// Checks that a schema is not empty.
    pub fn validate_schema(&self, name: &str, schema: &Value) -> (r: ValidationResult)
        ensures
            r.says(
                schema_report(self.mode(), name@, schema@),
                self.mode(),
                self.enforced(),
            ),
            r.valid <==> r.errors@.len() == 0,
    {
        let mut warnings: Vec<String> = Vec::new();
        let mut errors: Vec<String> = Vec::new();
        assert(report_of(warnings@, errors@).warnings =~= seq![]);
        assert(report_of(warnings@, errors@).errors =~= seq![]);
        if let Value::Object(o) = schema {
            if o.is_empty() {
                let mut m: String = owned("Schema '");
                m.push_str(name);
                m.push_str("' is empty");
                add_issue(&self.mode, m.as_str(), &mut warnings, &mut errors);
            }
        }
        self.finish(warnings, errors)
    }

    /// Checks that a value has the required fields of a schema, and no others
    /// than its fields.
    pub fn validate_against_schema(&self, data: &Value, schema: &Value, path: &str) -> (r:
        ValidationResult)
        ensures
            r.says(
                match_report(self.mode(), data@, schema@, path@),
                self.mode(),
                self.enforced(),
            ),
            r.valid <==> r.errors@.len() == 0,
    {
        let mut warnings: Vec<String> = Vec::new();
        let mut errors: Vec<String> = Vec::new();
        assert(report_of(warnings@, errors@).warnings =~= seq![]);
        assert(report_of(warnings@, errors@).errors =~= seq![]);
        if let (Value::Object(o), Value::Object(s)) = (data, schema) {
            let ghost mode = self.mode();
            let ghost want = with_required(no_report(), mode, o@, s@, path@, 0);
            let n: usize = s.len();
            let mut i: usize = 0;
            while i < n
                invariant
                    i <= n == s@.len(),
                    mode == self.mode(),
                    want == with_required(
                        report_of(warnings@, errors@),
                        mode,
                        o@,
                        s@,
                        path@,
                        i as int,
                    ),
                decreases n - i,
            {
                if let Some(name) = required_name(s.key_at(i)) {
                    if !o.contains_key(name) {
                        let mut m: String = owned("Missing required field: ");
                        m.push_str(child_path(path, name).as_str());
                        add_issue(&self.mode, m.as_str(), &mut warnings, &mut errors);
                    }
                }
                i += 1;
            }
            let ghost middle = report_of(warnings@, errors@);
            let k: usize = o.len();
            i = 0;
            while i < k
                invariant
                    i <= k == o@.len(),
                    mode == self.mode(),
                    with_extra(middle, mode, o@, s@, path@, 0) == with_extra(
                        report_of(warnings@, errors@),
                        mode,
                        o@,
                        s@,
                        path@,
                        i as int,
                    ),
                decreases k - i,
            {
                let key = o.key_at(i);
                if !has_field(s, key) {
                    let ghost w = warnings@;
                    let ghost e = errors@;
                    match self.mode {
                        ValidationMode::Strict => {
                            let mut m: String = owned("Extra field not in schema: ");
                            m.push_str(child_path(path, key).as_str());
                            let ghost t = m@;
                            errors.push(m);
                            assert(string_texts(errors@) =~= string_texts(e).push(t));
                        },
                        ValidationMode::Warn => {
                            let mut m: String = owned("Extra field: ");
                            m.push_str(child_path(path, key).as_str());
                            let ghost t = m@;
                            warnings.push(m);
                            assert(string_texts(warnings@) =~= string_texts(w).push(t));
                        },
                        ValidationMode::Loose => {},
                    }
                }
                i += 1;
            }
        }
        self.finish(warnings, errors)
    }

    /// Adds the issues that a value has under a specification.
    fn enforce_spec(
        &self,
        o: &SconMap,
        spec: &str,
        warnings: &mut Vec<String>,
        errors: &mut Vec<String>,
    )
        ensures
            report_of(final(warnings)@, final(errors)@) == with_spec(
                report_of(old(warnings)@, old(errors)@),
                self.mode(),
                o@,
                spec@,
            ),
    {
        if !(same_text(spec, "openapi:3.1") || same_text(spec, "openapi:3.0")) {
            return;
        }
        let mut start: String = owned("Missing required field per ");
        start.push_str(spec);
        start.push_str(": ");
        let top: Vec<&str> = vec!["openapi", "info", "paths"];
        let ghost t = seq!["openapi"@, "info"@, "paths"@];
        assert(crate::text::texts(top@) =~= t);
        self.require(o, &top, start.as_str(), warnings, errors);
        if let Some(Value::Object(info)) = o.get("info") {
            let nested: Vec<&str> = vec!["title", "version"];
            let ghost u = seq!["title"@, "version"@];
            assert(crate::text::texts(nested@) =~= u);
            start.push_str("info.");
            self.require(info, &nested, start.as_str(), warnings, errors);
        }
    }

    /// Adds an issue for each field that an object lacks.
    fn require(
        &self,
        o: &SconMap,
        fields: &Vec<&str>,
        start: &str,
        warnings: &mut Vec<String>,
        errors: &mut Vec<String>,
    )
        ensures
            report_of(final(warnings)@, final(errors)@) == with_missing(
                report_of(old(warnings)@, old(errors)@),
                self.mode(),
                o@,
                crate::text::texts(fields@),
                start@,
                0,
            ),
    {
        let ghost mode = self.mode();
        let ghost f = crate::text::texts(fields@);
        let mut i: usize = 0;
        while i < fields.len()
            invariant
                i <= fields@.len(),
                mode == self.mode(),
                f == crate::text::texts(fields@),
                with_missing(report_of(old(warnings)@, old(errors)@), mode, o@, f, start@, 0)
                    == with_missing(
                    report_of(warnings@, errors@),
                    mode,
                    o@,
                    f,
                    start@,
                    i as int,
                ),
            decreases fields@.len() - i,
        {
            if !o.contains_key(fields[i]) {
                let mut m: String = owned(start);
                m.push_str(fields[i]);
                add_issue(&self.mode, m.as_str(), warnings, errors);
            }
            i += 1;
        }
    }

    /// The result with what was collected.
    fn finish(&self, warnings: Vec<String>, errors: Vec<String>) -> (r: ValidationResult)
        ensures
            r.says(report_of(warnings@, errors@), self.mode(), self.enforced()),
    {
        let enforce: Option<String> = match &self.enforce {
            Some(s) => Some(s.clone()),
            None => None,
        };
        ValidationResult { valid: errors.len() == 0, warnings, errors, mode: self.mode, enforce }
    }
}

/// Adds an issue to the warnings or the errors.
fn add_issue(
    mode: &ValidationMode,
    msg: &str,
    warnings: &mut Vec<String>,
    errors: &mut Vec<String>,
)
    ensures
        report_of(final(warnings)@, final(errors)@) == with_issue(
            report_of(old(warnings)@, old(errors)@),
            *mode,
            msg@,
        ),
{
    if *mode == ValidationMode::Strict {
        let m = owned(msg);
        errors.push(m);
        assert(string_texts(errors@) =~= string_texts(old(errors)@).push(msg@));
    } else if *mode == ValidationMode::Warn {
        let m = owned(msg);
        warnings.push(m);
        assert(string_texts(warnings@) =~= string_texts(old(warnings)@).push(msg@));
    }
}

/// The name of a required field.
fn required_name<'a>(k: &'a str) -> (r: Option<&'a str>)
    ensures
        match r {
            Some(n) => is_required(k@) && n@ == k@.drop_last(),
            None => !is_required(k@),
        },
{
    let cs = chars_of(k);
    let n: usize = cs.len();
    if n > 0 && cs[n - 1] == '!' {
        assert(k@.subrange(0, n - 1) =~= k@.drop_last());
        Some(part(k, 0, n - 1))
    } else {
        None
    }
}

/// A key without the exclamation marks at its end.
fn name_of<'a>(k: &'a str) -> (r: &'a str)
    ensures
        r@ == field_name(k@),
{
    let cs = chars_of(k);
    let mut n: usize = cs.len();
    assert(k@.subrange(0, n as int) =~= k@);
    while n > 0 && cs[n - 1] == '!'
        invariant
            n <= cs@.len(),
            cs@ == k@,
            field_name(k@) == field_name(k@.subrange(0, n as int)),
        decreases n,
    {
        assert(k@.subrange(0, n as int).drop_last() =~= k@.subrange(0, n - 1));
        n -= 1;
    }
    part(k, 0, n)
}

/// Whether a schema has a field of a name.
fn has_field(s: &SconMap, key: &str) -> (r: bool)
    ensures
        r == names_field(s@, key@, 0),
{
    let n: usize = s.len();
    let mut i: usize = 0;
    while i < n
        invariant
            i <= n == s@.len(),
            names_field(s@, key@, 0) == names_field(s@, key@, i as int),
        decreases n - i,
    {
        if same_text(name_of(s.key_at(i)), key) {
            return true;
        }
        i += 1;
    }
    false
}

} // verus!
