# marxml

Markdown documents with embedded XML-shaped tags: parse them, query them with
CSS-style selectors, rewrite them byte-surgically, validate them against a
declarative schema, and serialize the element tree as XML or JSON.

The library under `src/` is written in Verus: every function carries a
contract stated over mathematical models (the document as its source text,
root elements and comment/CDATA ranges; selectors as compound chains;
mutations as ordered splices of the source), and Verus proves the code
against them.

Layout:

- `src/tokenizer.rs`, `src/parse.rs`: bytes to tokens to element tree, with
  the grammar stated as spec functions (`spec_parse`); `src/shape.rs`: what
  the source shows at each parsed element's span.
- `src/selector/`: selector grammar, parser and matcher.
- `src/mutate.rs`: attribute updates, content and regex replacement as
  splices of the source.
- `src/schema.rs`, `src/validate.rs`: schema builder, compilation, and
  validation in document order.
- `src/serialize.rs`, `src/json.rs`: XML and JSON renderings.
- `src/escape.rs`, `src/order.rs`, `src/source.rs`: escaping and entity
  decoding, string order and sorted entry lists, byte/character views of the
  source.
- `src/pattern.rs`: regular expressions, compiled by the `regex` crate.
- `src/node.rs`: the plain-data shapes a JavaScript binding exchanges.
- `app/lib.rs`: the napi binding and the serde-backed renderings (JSON text,
  YAML).

Laws of the library are public proof functions named `law_*` next to the
functions they speak of.
