# normalization_tables

Writes the generated files of a Meadow package for Unicode normalization from
Rust's `unicode-normalization` 0.1.25 (Unicode 17.0.0):

- `src/Tables.mw`: every per-character fact the crate's algorithms consult
  (combining classes, full decompositions, primary composites, non-starter
  counts, combining marks, public assignment, quick-check properties), as
  strings of fixed-width base-64 digit records;
- `src/Cases.mw`: strings, characters and pairs with what the crate makes of
  them.

The library in `src/` is verified with Verus. Each call into
`unicode-normalization` goes through one trusted wrapper in
`src/normalization.rs`, whose contract says what the crate returns; everything
around those calls is proved against exact contracts:

- `encoding`: digit records, length-prefixed strings and string literals, with
  laws that the digits read back and sort as their numbers, and that a literal
  is printable ASCII that reads back to its text;
- `fingerprint`: FNV-1a, with laws on continuation and on one-byte changes;
- `rng`: the seeded xorshift64* generator;
- `scalars`, `runs`, `tables`: the tables file;
- `official`, `order`, `cases`: the cases file;
- `composition_source`: the size of the crate's composition table, counted in
  its source.

`app/` is the program around the library: arguments, finding the crate's
source through `cargo metadata`, and reading and writing files.

```text
generate <package root> <NormalizationTest.txt>
```
