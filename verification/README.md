# code_chunks

Cuts Rust source files into chunks at item boundaries and keeps statistics
about those chunks. The library under `src/` is verified with Verus:

- `ripgrep_lines`: the line-number lists (sorting, interval filtering,
  merging, gap filling) and the pipeline that decides where a file is cut;
- `ripgrep_output`: reading line numbers out of a search tool's output;
- `file_chunks`, `code_chunker`: cutting a file's lines into chunks;
- `code_chunk`: the chunk type and how a chunk is shown;
- `load_chunks`, `chunk_order`: sorting chunks by file and number, and
  counting chunks per file;
- `line_lemmas`, `line_laws`, `chunk_laws`: the proofs, and the properties
  that the library keeps.

`app/` holds the program around it: the command line, walking the source
tree, running the search tool, reading and writing JSON, the browser
automation and the small web server.
