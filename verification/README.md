# teksilo_ui

The decisions behind the Teksilo writing application's user interface, written
in Verus and proved against their contracts.

## Layout

- `src/` — the verified library. Each module states its behaviour over a
  mathematical model (`Seq`, `Map`, spec functions and views) and proves it:
  - `lane_ids`, `lanes` — the margin lane: stable FNV ids for providers and
    marks, the live search query and story-bible subject slots (only the
    publisher withdraws), the marks each provider gives and their paint order.
  - `mentions`, `mention_index`, `presence` — the mention index: row order
    (stable), the roster, cast and backlinks of an item, and confirming an
    entry into the documents that name it.
  - `overview`, `overview_sort`, `indent_tree`, `binder_stream`, `note_prose` —
    the overview table (subtree slices, totals folded bottom-up, open comment
    counts, sorting), trees read off indents, the binder stream, and the rows a
    story-bible note is declared in.
  - `comments`, `dict_words`, `digest`, `reload` — comment threads and their
    order, the personal dictionary, the per-row manuscript digest, and the
    one-reload-per-burst coalescer.
  - `exchange`, `note_files`, `dictionaries`, `styles`, `paratext`, `media` —
    the settings files as values and the operations on them (bounded,
    newest-first project memory, licence acceptance, style ids, paratext
    presets, the media root).
  - `memprof` — the heap profiler's decisions: size classes, `/proc` parsing,
    the large-allocation table, the report's ranking and the marker file.
  - `text`, `order` — text and ordering helpers the rest is stated with,
    including what a stable sort keeps of its input.
- `tests/` — tests run against the compiled library.
- `app/` — ordinary Rust around the library: the counting global allocator and
  its sampler thread, settings files on disk (serde and TOML), preset and style
  sources, and identifier and time conversions.
