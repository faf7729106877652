# xnip

Precise, line-oriented text editing for LLM agents: `peek` and `find` to
look, `replace`, `insert`, `move` and `indent` to edit one file, and
`apply` to run a manifest of edits over many files in two phases (every
file is computed before any is written). Every write can be undone by
running it again with `--revert`.

## Layout

- `src/` — the library, verified with Verus.
  - `text/` — the line model of a byte buffer (`lines`), characters and
    numbers (`chars`), regexes (`pattern`, over the `regex` crate),
    locating lines (`location`), the edit and search operations (`ops/`),
    unified diffs (`diff`, over `similar`), contents, backups, `revert`.
  - `apply/` — operations, the native manifest format (`parse_native`), the
    operation objects of JSON/YAML manifests (`raw`), format detection,
    grouping a manifest's operations by file (`group`), running a file's
    operations (`commit`), and the laws that hold of
    every run (`laws`).
  - `cli/`, `mcp/` — what the command line and the MCP tools make of
    their options, and the exit code of each outcome.
  - `output/` — exit codes and output flags.
- `tests/` — tests of the library.
- `app/` — the `xnip` program: argument parsing, files, standard
  input and output, JSON/YAML reading, the MCP server.
