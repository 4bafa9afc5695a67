//! SCON, a compact notation for objects: reading, writing, minifying, hashing
//! and validating documents.
//!
//! A document is a text of lines. A key and a colon stand before a value; the
//! entries of an object stand one level deeper than its key:
//!
//! ```text
//! name: scon
//! features:
//!  dedup: true
//!  modes[3]: owned, borrowed, tape
//! endpoints[2]{method,path}:
//!  GET, /users
//!  POST, /users
//! list[2]:
//!  - one
//!  - key: value
//! ```
//!
//! In a minified document semicolons stand in place of line breaks, one more
//! for each level that ends.

use vstd::prelude::*;

pub mod text;
pub mod bytes;
pub mod number;
pub mod float;
pub mod order;
pub mod scan;
pub mod value;
pub mod json;
pub mod overrides;
pub mod schema_registry;
pub mod tokens;
pub mod lines;
pub mod decoder;
pub mod encoder;
pub mod treehash;
pub mod comparing;
pub mod minifier;
pub mod validator;
pub mod readback;
pub mod laying;
pub mod roundtrip;
pub mod defining;
pub mod sharing;
pub mod taping;
pub mod neat;
pub mod listing;
pub mod repeats;
pub mod agreeing;
pub mod along;
pub mod marks;
pub mod semicolons;
pub mod figures;
pub mod printing;
pub mod oneline;
pub mod headers;
pub mod forms;
pub mod entries;
pub mod shapes;
pub mod tallies;
pub mod differing;
pub mod exchange;
pub mod whole;
pub mod borrowed;
pub mod tape;

pub use crate::borrowed::{BorrowedDecoder, BorrowedValue};
pub use crate::decoder::Decoder;
pub use crate::encoder::Encoder;
pub use crate::float::Float;
pub use crate::minifier::Minifier;
pub use crate::schema_registry::{DefType, SchemaRegistry};
pub use crate::tape::{Node, Tape, TapeDecoder};
pub use crate::treehash::{DiffEntry, DiffKind, HashEntry, HashTreeResult, TreeHash};
pub use crate::validator::{ValidationMode, ValidationResult, Validator};
pub use crate::value::Value;

use crate::decoder::{as_value, decode_text};
use crate::encoder::{encode_text, encoded, lemma_without_definitions, new_manner, Manner};
use crate::minifier::{expanded, minified};

verus! {

/// The document for a value, with one space to a level.
pub fn encode(data: &Value) -> (r: String)
    ensures
        r@ == encode_text(data@, 1),
{
    proof {
        lemma_without_definitions(new_manner(), data@, seq![]);
        assert(Seq::<char>::empty() + encode_text(data@, 1) =~= encode_text(data@, 1));
    }
    Encoder::new().encode(data)
}

/// Appends the document for a value, with one space to a level.
pub fn encode_to(data: &Value, buf: &mut String)
    ensures
        final(buf)@ == old(buf)@ + encode_text(data@, 1),
{
    proof {
        lemma_without_definitions(new_manner(), data@, buf@);
    }
    Encoder::new().encode_to(data, buf);
}

/// The document for a value, with `indent` spaces to a level, at least one.
pub fn encode_with_indent(data: &Value, indent: usize) -> (r: String)
    ensures
        r@ == encode_text(
            data@,
            if indent == 0 {
                1
            } else {
                indent as nat
            },
        ),
{
    let mut e: Encoder = Encoder::new().with_indent(indent);
    proof {
        lemma_without_definitions(e@, data@, seq![]);
        assert(Seq::<char>::empty() + encode_text(data@, e@.indent) =~= encode_text(
            data@,
            e@.indent,
        ));
    }
    e.encode(data)
}

/// The document for a value, with its repeated objects defined before it and
/// referred to by name.
pub fn encode_with_dedup(data: &Value) -> (r: String)
    ensures
        r@ == encoded(Manner { auto: true, ..new_manner() }, data@, seq![]),
{
    Encoder::new().with_auto_extract(true).encode(data)
}

/// The value that a document holds.
pub fn decode(input: &str) -> (r: Result<Value, String>)
    ensures
        as_value(r) == decode_text(input@),
{
    Decoder::new().decode(input)
}

/// A document on one line.
pub fn minify(scon: &str) -> (r: String)
    ensures
        r@ == minified(scon@),
{
    Minifier::minify(scon)
}

/// A minified document on lines, with `indent` spaces to a level.
pub fn expand(minified: &str, indent: usize) -> (r: String)
    ensures
        r@ == expanded(minified@, indent as nat),
{
    Minifier::expand(minified, indent)
}

} // verus!
