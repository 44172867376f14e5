# bonsai

Compiles trained tree ensembles to standalone Rust source, and evaluates them directly. The
library under `src/` is written in Verus: every function states what it does, and Verus proves
that it does so, except for calls into other crates and the standard library, of which it
believes what a doc comment beside each of them says:

- `zip` opens and reads archives, and `serde_json` reads documents and writes their values out;
- `proc_macro2` writes the number literals of generated source;
- `byteorder` turns bytes into numbers and back;
- the standard library reads numbers in texts, writes numbers and texts out in the display,
  debug, fixed and scientific formats, decodes UTF-8, lowers case, sorts, and finds the last
  component of a path.

The modules:

- `number`, `text`, `json`: numbers as bit patterns, texts, and JSON documents.
- `ir`: the forest that every frontend produces and every backend consumes.
- `frontends`, `parsers`: H2O-3 MOJO archives, ONNX graphs, and the JSON documents of XGBoost,
  LightGBM and CatBoost.
- `model`: which frontend reads a file, and the header that a generated source starts with.
- `backends`: the if/else layout, the array layout, and the choice between them.
- `interpreter`: what a forest predicts for a row.
- `verify`, `emit_crate`, `inspector`, `report`, `scorer`: reference data and comparisons,
  complete crates, statistics, and batch scoring.

Routing a row through the trees, reading models and writing source are exact and, up to those
calls, proved.
Floating-point arithmetic is left to the caller: a prediction lists the terms to add up, in
order. The program under `app/` does that arithmetic, reads and writes files, and runs the
compiler.

Among what is proved of the library's own functions: each reader gives exactly the forest that
its format describes, or the failure that is stated, and each writer gives exactly the stated
text. What the generated source does when it is compiled is outside of Verus. So a model of it
stands beside the templates, and the following is proved of these models: of the tree functions
in `src/backends/code.rs`, of `FlatView::walk` in `src/backends/rust_array.rs`, and of
`TableView::search` and `CounterView` in `src/backends/catboost.rs`.

- The tree functions of the if/else layout and the lookup of oblivious trees return the leaf
  that the tests of the tree select, on features as on CatBoost counters. Without counters this
  is the leaf that the interpreter reaches.
- The walker of the array layout reaches the interpreter's leaf, where the feature indices fit
  32 bits and the numbers of nodes and leaves stay below 2^31 - 1.
- Both layouts and the interpreter start a score with the same number, add the same terms in
  the same order, and divide by the same number.
- The search in a counter's table finds the row with the hash. A counter depends on the
  categories that it names alone, and is the ratio that its recipe makes of that row's counts.
