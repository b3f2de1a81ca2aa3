# asset_library

A local asset library — a catalog of images, video, audio and documents on disk with
user metadata kept in adjacent Sidecar files — written in Verus. The library in `src/`
states its behaviour in `requires`/`ensures` contracts over mathematical models and is
proved by Verus; `app/` is the thin program around it.

## Layout

- `src/` — the verified library:
  - text and classification: `text`, `asset_core`, `records`, `formats`, `isobmff`, `platform`;
  - the query language: `query_model`, `query_lex`, `query_values`, `query_filters`,
    `query_parse`, `query_nodes`, `query_rewrite`;
  - the catalog: `index` (records sorted by key, queries), `catalog` (ingest, per-root
    resets and reconciliation, stable-ID moves, committed Sidecars);
  - scanning and watching: `scanner`, `ignore`, `events`, `coordination`;
  - library roots, support reports and batch edits: `library`, `support`, `batch`,
    `reconciliation`, `diagnostics`;
  - the format worker: `protocol`, `heif_backend`, `worker_client`, `bundle`.
- `tests/` — tests of the library on concrete values.
- `app/` — the command line: one format-worker request over standard I/O, scanning a
  root with `walkdir`, watching a root with `notify`, and the library-root configuration
  file (YAML, written atomically).

Verify with Verus on `src/lib.rs`; build and test with Cargo.
