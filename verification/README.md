# outou

Source maps between `.rsx` files and the Rust generated from them, and the
logic an Outou language server builds on them, verified with Verus.

- `src/` is the library. Verus proves the contract of every function in
  it except two small wrappers around the standard library
  (`String::push` in `text`, `String::from_utf8_lossy` in `uri_path`),
  whose contracts are stated from std's documentation and trusted. It
  covers span and source-map arithmetic (`span`, `source_map`,
  `builder`, `registry`, `json`, `line_index`), position and location
  translation (`mapping`, `diagnostics`, `references`, `rename`,
  `semantic`, `tokens`, `legend`, `outou_tokens`), answer sanitising
  (`translate`, `response`, `complete`), request bookkeeping
  (`broker`, `requests`, `notifications`, `edits`), and module-path
  rules (`modules`, `paths`, `graph`, `uri_path`). Laws that relate
  several functions are public proof functions beside them.
- `tests/` runs the library on concrete values.
- `app/` is the `outou-lsp` binary: the editor connection, the
  rust-analyzer child process, JSON conversion and file access. It loads
  the generated units and `.rs.map.json` source maps that a build wrote
  under `src/.generated/` and relays requests through the library.
