# ott

Parsing, checking and rendering of Ott language specifications, written in
Verus and verified.

- `src/` — the library: the `.ott` section parser (`parser`), binding
  specifications (`bind`), semantic checks (`check`), the Typst render
  document (`render`), and snippet parsing with a specification's grammars
  (`grammar`, `termlex`, `earley`, `template`, `syntax`), with the cache and
  entry points of the Typst plugin (`plugin`).
- `tests/` — tests of the library.
- `app/` — the command-line program (`check`, `render-json`, `render-cbor`),
  the serde form of the render document with its CBOR encoding, and the
  WebAssembly plugin functions.

The laws that the library proves stand as public proof functions (`lemma_*`)
beside the functions they relate; the contracts of the public functions state
what each returns.
