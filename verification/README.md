# rsmt2d

Two-dimensional Reed-Solomon merkle tree data availability scheme, verified
with Verus.

Data arranged in a square is extended with Reed-Solomon parity along its rows
and columns, committed to by the merkle roots of every row and column, and
repaired from the shares that remain.

## Layout

- `src/shares.rs`, `src/text.rs`: views of shares and byte helpers; decimal and
  list renderings used in error messages.
- `src/error.rs`: the error types and their messages.
- `src/traits.rs`: the `Codec` and `Tree` interfaces, each with the spec
  functions that its implementations state their results by.
- `src/tree.rs`: the SHA-256 merkle tree (`sha2` behind one trusted wrapper).
- `src/codec.rs`: the Reed-Solomon codec (`reed-solomon-erasure` behind
  trusted wrappers).
- `src/extended_data_square.rs`: the extended data square of complete chunks:
  construction, extension, import, chunk access, roots, and repair by
  Reed-Solomon decoding checked against the given roots.
- `src/datasquare.rs`: the data square whose shares may be missing, kept row
  by row and column by column, with cached roots.
- `src/erasure.rs`, `src/extendeddatasquare.rs`, `src/crossword.rs`: the
  extended data square over such a data square, its erasure extension and its
  crossword repair from row and column roots.
- `src/completion.rs`: completing a square line by line, each line rebuilt
  from at least half of its shares, and what a square that can rebuild no
  more lines holds; both repairs are shown to succeed by it.
- `src/laws.rs`: properties that relate the operations: round trips of
  flattening and importing, reads after writes, encoding and decoding, the
  original data kept by extension, the extended square coded along every row
  and column, and the soundness and success of repair.
- `tests/`: tests of the library.
- `app/`: copies of the library's types with `serde` and `thiserror` derives,
  and conversions both ways.
