# scon

SCON, Schema-Compact Object Notation: a notation for objects that people can
read, with definitions for the parts that repeat. The library is written in
Verus, and what each function does is stated in its contract and proved.

```
name: scon
version: 1
features:
  dedup: true
  modes[3]: owned, borrowed, tape
endpoints[2]{method,path,status}:
  GET, /api/users, 200
  POST, /api/users, 201
```

## Layout

| Part | Modules of `src/` |
|------|-------------------|
| Text, bytes, numbers, order | `text`, `bytes`, `number`, `float`, `order`, `scan` |
| Values and JSON | `value`, `json` |
| Definitions and overrides | `schema_registry`, `overrides` |
| Reading | `tokens`, `lines`, `decoder`, `borrowed`, `tape` |
| Writing | `encoder`, `minifier` |
| Hashes and validation | `treehash`, `comparing`, `validator` |
| What reading and writing have to do with each other | `readback`, `laying`, `roundtrip`, `neat`, `defining`, `sharing`, `taping`, `whole` |

A number that is not an integer is a machine float, held by the shortest decimal
text that stands for it: `1.50` is read as `1.5`, and `1e400` as infinite. `app/`
holds a value type with the floats themselves, and converts both ways.

## What is proved

* `roundtrip::decoding_undoes_encoding`: reading what was written gives back an
  equal value. `reads_back` says of which values, and
  `neat::neat_values_come_back` shows that it is every value whose texts hold no
  white space but spaces and tabs, whose floats are finite, and which has none of
  `s`, `r` and `sec` as a key. `value::values_are_sound` gives the rest of what
  the laws ask for.
* `defining::decoding_undoes_deduplication`: the same holds where repeated parts
  are defined once and referred to. `sharing::ordinary_objects_come_back` shows
  that it does for objects whose keys are words and whose arrays hold primitives,
  and `sharing::nothing_is_defined_without_repeats` that nothing is defined where
  no two parts have the same digest.
* `laying::minifying_keeps_the_value` and `expanding_keeps_the_value`: a document
  on one line says the same, and so does what is made of it. `laid_out` says of
  which documents.
* `laying::expanding_undoes_minifying`: the lines of a document come back from
  one line. `foldable` says of which documents.
* `laying::minifying_ignores_blank_lines_and_comments`, but for comments that
  name the format, and `minified_is_one_line`.
* `borrowed::borrowed_reads_the_same`: the reader that borrows finds what the
  other finds. A new one does so in every document; one that has read others
  before, in every document that is not minified.
* `taping::a_tape_holds_what_was_encoded`: a tape made of a document that was
  written holds the nodes of the value. Strings and keys keep their escapes
  there, except in a document on one line with a semicolon in it, whose tape
  holds the texts themselves.
* `whole::every_tape_is_one_value` and `a_tape_tells_its_value`: whatever the
  document, its tape holds one value and nothing more, and no other value has the
  same nodes.
* `comparing`: hashes do not tell the order of entries at any depth, values are
  the same exactly where they differ in nothing, and differences seen from the
  other side are the same with added and removed exchanged.
* The laws of equality (`value`), of hashes (`treehash`), of definitions
  (`schema_registry`), of overrides (`overrides`), of JSON (`json`) and of
  validation (`validator`).

Calls into other crates (`indexmap`, `compact_str`, `memchr`, `itoa`,
`xxhash-rust`, `serde_json`, `bumpalo`) go through small functions whose
contracts say what is taken from those crates without proof.
