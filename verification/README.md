# sandbox_rs

A library and command-line tool for making HTTP requests inside an isolated
directory: responses are saved under the sandbox root, and every path the
tool writes to is jailed to that root; reads may also come from configured
readonly directories.

The library (`src/`) is verified with Verus:

- `path` — paths as strings with Unix semantics: components, lexical
  normalization, joining, prefix tests and ordering, with their proofs.
- `sandbox` — the jail: write paths under the root (lexically, and after
  resolving the symbolic links of the part that exists on disk), response
  files under the response directory, read paths under the root or a
  readonly root (as written, or once resolved the same way), and the readonly directory bookkeeping.
- `config`, `logging` — the `sandbox.toml` values, log levels and the log
  file's place.
- `http`, `storage` — request/response values, header checks and merging,
  pretty JSON (serde_json's parse and print are named, not proved),
  saved-response records, their file names and the listing order.
- `clock` — the system clock read as seconds and nanoseconds from the
  epoch (before it too), and the instants chrono prints for stamps and
  file names.
- `cli` — argument parsing and the decisions of the command line.
- `platform` — the per-OS names and default directories.

The program (`app/`) does the file, network and terminal work around it:
reading and writing `sandbox.toml`, canonicalizing the root and readonly
directories, creating the response directory once the library has checked
that it lies inside the root, sending
requests, writing and listing saved responses, and logging.
