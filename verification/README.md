# mgi_pulse

The engine of a terminal log navigator, written and proved in Verus, and the
program around it.

- `src/`: the library. Line parsers for eleven formats, the index, predicates
  and the query language, histograms, the schema of auto-columns, producers of
  records, the state behind the tabs with every key's effect, and what each pane
  shows as styled rows. Every public function states in its contract what it
  returns or changes; laws that span functions are public proof functions named
  `law_*`.
- `tests/`: the library run on concrete values.
- `app/`: the program. Arguments, files and memory maps, decompression,
  following a file, the bookmark sidecar on disk, and the terminal. It hands
  plain values to the library and draws what it gets back.

What the library believes without proof stands beside the calls it is about:
`regex` in `src/pattern.rs`, `serde_json` in `src/json.rs`,
`src/io/json_array.rs` and `src/panes/detail.rs`, `memchr` in `src/io/file.rs`,
`simd-json` in `src/bench.rs`, and a few functions of the standard library in
`src/text.rs`, `src/number.rs` and `src/cli.rs`.
