# Storage Monitor

What takes the space on a disk, what grew since the last look, and what may go.

- `src/` is the library: the arena tree of a scan and the decisions of the walk (`scan`),
  snapshots and the growth between them (`snapshot`), the guards and the engine of a deletion
  (`action`), the contract of a cleanup module (`module`) and the engine that runs what modules
  plan (`cleanup`), and what the window and the command line show (`window`, `cli`). Verus
  verifies its functions against their contracts.
- `app/` is ordinary Rust around it: the command line, the parallel walk of the disk, the
  snapshot directory, the action log, the clock, deleting and running programs, and the state
  behind the desktop window.
- `tests/` runs the library on concrete values.

What the machine says comes into the library as plain values: stats, listings, looks at a path,
the results of deletions and of commands. The contracts are stated for every such answer.

Outside code is trusted in few places, each behind one item with a doc comment that says what is
claimed of it: postcard, lz4_flex and chrono in `src/snapshot/codec.rs`, and three functions of
the standard library in `src/text.rs` and `src/module.rs`.
