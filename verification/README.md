# wax

WebAssembly instruction utilities and the canonical WSMM semantic-metadata
manifest, with their behaviour stated in contracts and proved with Verus.

## Layout

- `src/instr.rs`: the instructions and types the library reads, as plain
  values (`Instr`, `ValType`, `BlockType`, `FuncType`, `GlobalType`).
- `src/sink.rs`, `src/sink/`: instruction sinks and sources, lazy
  transformations and stitching.
- `src/rewrite.rs`: index rewriting (plain offset and sidecar encoding),
  index trackers and the shim generator trait.
- `src/analysis/`: dead code analysis and structured control flow analysis.
- `src/lowering/`: return cleanup and globalization passes.
- `src/tags.rs`: branch targets of a function body.
- `src/meta.rs`, `src/meta/`: the WSMM manifest: its map, its wire format
  (stated as spec functions in `format.rs` and `parse.rs`), encoding,
  decoding, the domain-separated SHA3-256 digests, and the proofs that
  decoding gives back what encoding writes for every manifest whose sizes,
  counts and nesting are within the decoding limits (`roundtrip.rs`), that
  decoding accepts only canonical bytes, which re-encode to themselves
  (`canonical.rs`), and that the semantic digest ignores `hash.` bindings
  (`semantic.rs`).  Every map inside a value keeps its keys in increasing
  byte order: `Manifest::insert` asks it of the values it is given
  (`Value::dict` and `value_sorted` check it), and decoding only produces
  such values.  Maps are held as sorted vectors: vstd specifies `BTreeMap`,
  but with `String` keys its operations give nothing that a proof here
  could use.
- `app/lib.rs`: conversions between the library's values and the
  `wasm-encoder` and `wasmparser` types, a sink that writes into an encoder
  function, and the operator-side entry points.
- `tests/`: tests of the library.
