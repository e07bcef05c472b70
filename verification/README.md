# beans_xml

A lenient parser for Spring Framework bean XML configuration (the
`<beans>` schema), written in Verus: the parsing logic is verified against
contracts over mathematical models of its input and output.

- `parse(&str)` / `parse_bytes(&[u8])` never fail: every anomaly of the
  input becomes a `Diagnostic`, and whatever can be read is kept.
- `parse_bytes` detects the encoding (byte-order mark, strict UTF-8, the
  XML declaration's label, EUC-KR, then lossy UTF-8) before parsing.
- Every located value carries a `ByteSpan` into the decoded UTF-8 text.

## Layout

- `src/` — the verified library.
  - `model.rs` the output types; `lib.rs` the entry points and the laws
    that span them.
  - `text.rs`, `events.rs`, `attrs.rs`, `entities.rs`, `braces.rs` — the
    element tree built from the tokenizer's events, with its recovery
    rules, attribute scanning, entity and placeholder checks.
  - `encoding.rs` — encoding detection and decoding.
  - `scope.rs`, `reading.rs` — namespace scopes and attribute reading.
  - `harvest.rs`, `literal.rs` — `${..}` keys and `#{..}` bean-reference
    candidates in literal text; literal values and references.
  - `tokens.rs`, `bean_attrs.rs`, `bean_children.rs`, `bean.rs` — `<bean>`.
  - `inject_value.rs`, `collection.rs`, `property.rs` — injected values,
    collections, properties and constructor arguments.
  - `namespaced.rs` — elements of other namespaces and the references
    harvested from them.
  - `dispatch.rs` — the `<beans>` block.
  - `located.rs` — values read verbatim are the text at their spans.
  - `tokenizer.rs`, `codec.rs`, `unicode.rs` — the calls into quick-xml,
    encoding_rs and the standard library, each with the contract it is
    trusted to meet.
- `tests/` — tests through the public functions.
- `app/` — the JSON form of a parse result (serde copies of the model,
  conversions both ways, and its JSON Schema).
