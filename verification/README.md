# aetherquery

The verified core of a small service that loads uploaded CSV files into DuckDB,
runs SQL over them and shows query plans as operator trees.

- `src/` is the library, verified with Verus:
  - `text.rs` – character sequences: whitespace and trimming, searching,
    removing characters, joining, decimal rendering;
  - `sql.rs` – quoting of identifiers and string literals (with the law that a
    quoted token reads back as its text) and every statement the service sends;
  - `values.rs` – database values rendered as display text and as JSON cells;
  - `plan.rs` – cleaning an `EXPLAIN` listing, reading its operators,
    nesting them into a tree and explaining the root.
- `app/` is the HTTP service around it (axum, tokio, DuckDB): routing, file
  upload, database access and JSON encoding.
- `tests/` runs the library on concrete inputs.
