# languagetool-code-comments

Extracts the comments of a source file and checks their spelling and grammar
with a LanguageTool server, caching the answers per file.

- `src/` is the verified library:
  - `language`: language detection from a file path, and per-language walk settings;
  - `parse`: the comment walk over a syntax tree (with embedded languages), and the
    code comments, with their checksums, made from the comments found;
  - `commands`: deduping comments, using cached answers, planning the queries,
    recording the answers and placing every match in the file;
  - `lt`: queries, results, matches, the whitespace filter, and the server address;
  - `cache`: the name of a file's cache entry;
  - `text`: string helpers.
- `app/` is the command-line program: argument handling, file and network I/O,
  the cache on disk, the HTTP client, and the tree-sitter grammars, which are C code reached
  through foreign functions.
- `tests/` exercises the library.
