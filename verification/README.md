# apfsearch_core

The core of a local file search engine, written in Verus: what a query means, which rows of an
index it finds and in what order, what a scan takes in, and when an index may be continued. Each
function of the library states what it returns, and Verus proves it.

## Layout

- `src/query/` - the query language: words and tokens, macros and groups, fields and modifiers,
  dates and numbers, and what a query says of a row (true, false or unknown).
- `src/relations/` - the directory tree of an index, its counts and sizes, and queries about the
  children, parents and descendants of a row.
- `src/search.rs`, `src/paging.rs`, `src/snapshot.rs` - the results of a search and pages of them.
- `src/natural.rs`, `src/result_order.rs`, `src/slot_sort.rs`, `src/slot_order.rs`,
  `src/ordered_merge.rs`, `src/ordered_page.rs`, `src/order_validation.rs`, `src/key_order.rs` -
  orders of rows: comparing, sorting, updating and checking them.
- `src/metadata_postings.rs`, `src/posting_map.rs`, `src/posting_changes.rs`,
  `src/posting_cache.rs`, `src/numeric_columns.rs`, `src/name_column.rs` - what answers a query
  without a look at each row, and postings as bytes.
- `src/scanner/` - host paths, scopes, scanning, and work that follows from change events;
  `walk.rs` says what the steps of a whole scan come to.
- `src/scan_resume.rs`, `src/engine/` - continuing an index, reconciling it, publishing and
  leasing snapshots, reading contents, and the checks of requests.
- `src/fold.rs`, `src/pcre.rs`, `src/bitmaps.rs` - Unicode folding, regular expressions and
  compressed sets, each from an outside crate behind a stated contract.
- `app/` - the engine around the library: the C interface, JSON, the store, the clock, the host's
  files, mounts and events, the worker that follows them, and arithmetic on numbers with a fraction.
- `tests/` - the library on concrete values.
