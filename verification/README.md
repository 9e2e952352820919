# minigrep

A small grep: it searches files for a regular expression and prints the
matching lines, optionally with line numbers, counts, inverted selection,
case-insensitive matching and recursive directory walks.

- `src/` is the library, verified with Verus:
  - `search/lines.rs` splits a text into lines as `str::lines` does;
  - `search/regex.rs` compiles patterns with the `regex` crate;
  - `search/utils.rs` selects the lines to show and merges their context
    windows, with the laws that the output obeys;
  - `search.rs` searches one file's text and decides what to do with each
    path given on the command line;
  - `formatter.rs` lays out each printed line.
- `app/` is the command-line program: argument parsing (clap), reading files
  and walking directories (walkdir), and colored output (colored).
- `tests/` runs the library on concrete inputs.
