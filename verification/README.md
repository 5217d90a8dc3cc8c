# noyalib

A YAML toolkit whose logic is proved with Verus.

- `src/parser/`: the scanner (`scanner.rs`, `lexeme.rs` for the scalar
  forms), the event parser (`events.rs`, one exact step per event) and
  the loader (`loader.rs`), which builds the value of each document with
  the byte ranges of its nodes under the limits of a `ParserConfig`
  (depth, length, mapping and sequence sizes, alias expansions) and the
  duplicate-key and merge-key policies.
- `src/borrowed.rs`: the plain value builder and the value model.
- `src/cst/`: the lossless syntax tree (green tree built from the
  scanner's recorded streams), `Document` (`parsed.rs`), and the
  path-targeted edits, comment, entry and anchor operations.
- `src/path.rs`, `src/scalar.rs`, `src/base64.rs`, `src/error.rs`,
  `src/config.rs`: query paths, scalar resolution, base64, source
  locations and errors, configuration.
- `app/`: the parts that need outside traits (serde, error display)
  around the library.
- `tests/`: the test suite, run against the compiled library.
