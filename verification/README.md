# nbedit

A command-line editor and MCP server for Jupyter notebooks (`.ipynb`), whose
notebook logic is a library verified with Verus.

- `src/` is the verified library: the notebook model and its nbformat
  serialisation, cell selections, cell operations (create, copy, delete,
  duplicate, move, merge, split, strip, clear, edit), ids and bookmarks,
  search/replace/query, the cell diff, output truncation, kernel ranking and
  choice, the execution-driver and session-daemon programs, the run report,
  session records and the MCP helpers (resource URIs, output inclusion).
  Functions state in `requires`/`ensures` what they compute, over a
  mathematical view of the data; the laws that span several calls are
  public proof functions named `lemma_*`. What comes from the clock or
  from chance (`now_unix`, `random_word`) is passed to a verified function
  (`seconds_or_zero`, `hex_of_words`) that states what is made of it.
- `app/` is the program around it: argument parsing, files, processes,
  sockets, kernel discovery on disk and the JSON-RPC loop. Run as
  `nbedit-mcp` it serves MCP on stdin/stdout.
- `tests/` exercises the library on concrete notebooks.

The outside crates `regex` and `serde_json` are called from the library
through small trusted wrappers (matching, replacing, compact JSON text), each documented with what its contract
claims.
