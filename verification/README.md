# md-kb-rag

Verified building blocks for a retrieval server over markdown documents.

- `src/` is the library, written in Verus. It finds the headings of a document,
  cuts its body into chunks along them, cleans and compares heading texts, maps
  body lines to file lines, and rewrites JSON Schemas so that they stand on their
  own. Each function has a contract over mathematical models; what holds of whole
  documents and schemas is stated and proved in `chunk_laws`, `size_laws` and
  `schema_laws`, and beside the functions it is about.
- `app/` connects the schema rewriting to the types of `rmcp` and `serde_json`.
- `tests/` runs the library on examples, with the outside crates linked.

Markdown is parsed by `pulldown-cmark`, oversized sections are split by
`text-splitter`, and case is folded by `unicase`. The library calls each of them
in one place, names the result and states a few facts about it; what the library
makes of the result is proved from those.
