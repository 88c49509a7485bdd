# flashfind

The verified core of a desktop semantic file search. A directory is indexed
by cutting its source files into one chunk per definition (with tree-sitter)
and its workbooks into text; each chunk is stored in a vector store under an
id computed from its path and content, and a metadata database remembers the
modification time of every indexed file so that later runs only touch what
changed.

Layout:

- `src/` — the library, verified with Verus:
  - `text.rs`: string comparison, path extensions, lower-casing;
  - `extractor.rs`: which nodes of a syntax-tree outline are definitions, and
    cutting their text out of the source;
  - `treesitter.rs`: grammars per extension, parsing through tree-sitter,
    chunks of a source file;
  - `qdrant.rs`: chunk ids, stored records, and the plan that brings a
    changed file's stored chunks to its new chunks;
  - `pipeline.rs`: new / modified / deleted files of a run and the records
    to store after it, which files are parsed, workbook text, chunks of a
    code file, grouping by file, and the set of directories being indexed;
  - `sqlite.rs`: file records and the database path;
  - `occurrence.rs`: facts about the last occurrence of a value;
  - `parser.rs`: the base parser trait.
- `app/` — the Tauri application around it: commands, the Qdrant and SQLite
  stores, the embedding model, and file and directory reading.
- `tests/` — tests of the library.
