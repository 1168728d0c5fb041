# nimi

A small process manager for services, with its decisions verified by Verus.

- `src/` is the library. `ordering` holds the dependency graph: cycle detection (what a check
  reports is stated in `ordering/search.rs`), start sets and start order. `process_manager` holds the decisions of a run: validation of the ordering, the
  gate that a waiting service stands at, the stages of a launch, restarts, shutdown, and the
  command line and environment of a service. `name_map`, `names` and `text` are what both rest on.
- `app/` runs processes, signals, timers and channels around the library. What depends on the
  embedding program (collecting orphaned processes, forwarding output, configuration directories,
  a terminal interface) are traits in `app/host.rs`.
- `tests/` runs the library on concrete values.

Two calls are trusted rather than proved: `shellexpand::full_with_context` in
`src/process_manager/child.rs`, and the quoting of strings by `{:?}` in `src/text.rs`.
