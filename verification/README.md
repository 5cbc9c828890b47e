# randdb

A local code-retrieval index: it scans a repository, records each file's
hash, text and language, cuts the text into line-aligned chunks located by
UTF-16 offsets, and answers retrieval, listing and symbol requests from the
index.

The library under `src/` is written in Verus. Each public function states
what it returns in its contract, and the laws that relate several functions
(chunks reading back from their file, packs staying within their limits,
embeddings surviving their byte form, index runs accounting for every file,
...) are proved as public proof functions.

- `chunking`, `text`: chunking files by UTF-16 budget, line splitting.
- `indexer`: content hashes (SHA-256), file records, scan order, the
  bookkeeping of an indexing run.
- `glob`, `language`: path patterns and languages.
- `search`, `ranking`: search settings, seed selection, the order of
  candidates (`f32::total_cmp` on bit patterns).
- `packing`, `markdown`: context expansion, packing under limits, rendering.
- `symbols`: references and definitions of a symbol.
- `stats`, `executor`: health snapshots and the assembly of responses.
- `vector`: the byte form of embeddings.

`app/` is the command-line program around the library: it reads a JSON
request on standard input, runs it against the SQLite store in
`<repo>/.randdb/index.db`, and prints the JSON result. The store, the file
system walk, the clock and all `f32`/`f64` arithmetic live there.
