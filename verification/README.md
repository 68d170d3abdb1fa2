# xmip-core-contract-xml-schema

The XML content contract of `xmip-core-contract`, as a Verus library.

Two claims. **Well-formedness is a given**: every Stream this contract sees is
parsed, and a Stream that is not XML fails with the line and column.
**Conformance is a given once the contract is named**: a contract bound to a
schema validates every Stream against it, and reports each departure with the
XPath of where it happened and what refused it.

Layout:

- `src/xml.rs` — a parsed document as the contract reads it (parsing is
  `roxmltree`'s).
- `src/schema.rs` — the XML Schema subset, and how a schema document is read.
- `src/check.rs` — holding a document to a schema.
- `src/text.rs` — trimming, qualified names, and the lexical forms of the
  built-in types.
- `src/contract.rs` — Streams, issues, results and errors.
- `src/lib.rs` — the contract and its factory.
- `app/lib.rs` — reading a schema file for the factory.

Each function's contract states its result over the specification functions
beside it; the `law_*` proof functions state what holds of the library as a
whole.
