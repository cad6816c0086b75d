# nota

A verified compiler for Nota, a document notation in which markup is outermost and JavaScript is
embedded in it.

- `src/` is the library: the scans, the reader, the two lowerings (hyperscript and JSX), source
  mappings, diagnostics and highlighting. Verus proves the contract of every function. What it takes
  on trust are the declarations of a few functions of `memchr`, `unicode-script`,
  `unicode-id-start` and the standard library, in `src/bytes.rs` and `src/unicode.rs`.
- `tests/` runs the library on documents.
- `app/` holds the WebAssembly bindings.

The library does not parse JavaScript. Where it must know something of the embedded code it looks in
a table of facts (`src/js.rs`); where the table has no answer it stops and says what it asked. The
caller asks its JavaScript parser, adds the answer, and calls again. What the table answers is not
asked again.

The lowered module goes back to the caller too, once: its JavaScript tools strip the types and
resolve the references, and what they made of it is handed in with the next call.

`tests/documents.rs` shows both steps, with a JavaScript parser of the size that its documents need.
