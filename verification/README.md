# djson

A reader for djson documents whose logic is verified with Verus.

- `src/parser.rs` and `src/parser/`: the byte-level reader. Unsigned
  integers with `_` separators, strings with the escapes of RFC 8259
  (including `\uXXXX` escapes and surrogate pairs), keywords, lists and maps
  of known keys. Each reading function is specified against a spec function
  over the input bytes that gives its result and the position after it.
  `escape.rs` states how text is written as a string and proves that reading
  it back gives the text.
- `src/eval.rs`: the parts of the evaluator that work on plain values:
  decoding string literals, the operators on integers and scalars (`none`,
  booleans, integers, strings), and attaching source spans to errors. The
  expression parser and the evaluation of whole documents work on tokens,
  document values, scopes and floats that the library does not define, and
  are not part of it.
- `src/test_utils.rs`: formatting of labelled snapshot cases.
- `src/text.rs`: the calls into `std` for UTF-8 decoding and for growing a
  `String`, whose contracts are trusted.
- `app/`: the serde front end (`from_bytes`, which also checks with the
  verified `Parser::expect_end` that nothing follows the document, and the
  `serde::Deserializer` impl) and the copies of the error types that carry `thiserror` and
  `miette` derives.
- `tests/`: the tests of the library.
