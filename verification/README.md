# json_syntax

A JSON syntax library whose behaviour is stated in `requires` / `ensures`
contracts and proved with Verus: a parser that keeps a code map (the byte
span and the size of every fragment of the document), a value type whose
objects keep their entries in order and allow duplicate keys, printers, and
conversions into Rust types.

## Layout

- `src/value.rs`, `src/number.rs`, `src/kind.rs`: the value type, its
  mathematical model (`JValue`), numbers and kinds.
- `src/object/`: objects (an entry list with a key index), lookups by key,
  insertion and removal, and lookups that return code-map offsets.
- `src/parse/`: the grammar as spec functions over characters, the
  parser that meets it, UTF-8 decoding, the laws that tie the code map
  to the parsed value, and the law that what the printer writes, with any
  options, parses back to the value it was written from.
- `src/print/`: compact, pretty and inline printing, with precomputed sizes.
- `src/fragment.rs`, `src/code_map.rs`, `src/array.rs`: fragments of a
  value in pre-order and the code map that describes them.
- `src/order.rs`, `src/compare.rs`, `src/unordered.rs`: the total order on
  values, and equality up to the order of object entries (reflexive,
  symmetric and transitive).
- `src/try_from.rs`: conversions from values into Rust types, with the
  code-map offset of the value that was refused.
- `tests/`: tests run against the compiled library.
- `app/`: parsing from character iterators, which gathers the characters
  and hands them to the library.

## Checking

Verus verifies everything under `src/`; the outside crates (`hashbrown`,
`json-number`, `utf8-decode`) are reached through a few trusted wrappers
whose contracts are stated next to them.
