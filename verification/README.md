# frame

A store of named entries, each holding a list of row batches, kept in an
ordered key-value store with nested transactions. The library is written in
Verus: the functions in `src/` carry contracts that Verus proves, except for
a handful of thin wrappers around standard-library calls (`char::from_u32`,
`String::push`/`pop`, `String::from_utf8_lossy`) and the declaration of
`std::io::Error`, whose contracts are trusted.

The store lives in memory: opening a path gives an empty store, and nothing
is written back to the file.

Layout:

- `src/order.rs` – the order of keys (that of `str`) and its properties.
- `src/store.rs` – the ordered store: sorted pairs, nested transaction levels.
- `src/file.rs` – `Frames` (a store under a path), `Txn`, and `Range` cursors.
- `src/entry.rs` – named entries: each batch of an entry lives under the
  entry's name followed by one Private Use Area character.
- `src/rows.rs` – reading a window of an entry's rows and removing rows.
- `src/batch.rs` – `RecordBatch` and the bytes a batch is stored as.
- `src/laws.rs` – properties that span several operations (transactions,
  appends, removals, listing of names).
- `src/cli.rs`, `src/lsm.rs`, `src/text.rs`, `src/error.rs` – the program's
  requests, the engine's vocabulary, character helpers, errors.
- `app/main.rs` – the command-line program: argument parsing, the file on
  disk, the interactive help.
