# futsu_linux

Small Unix tools (`cat`, `wc`, `head`, `tail`, `grep`, `ls`, `mkdir`,
`rmdir`, `chdir`) and a one-shot HTTP server, with their logic verified by
Verus.

- `src/` is the verified library:
  - `text.rs`: splitting text at a separator (as `str::split` does), decimal
    rendering and parsing of counts, string comparison.
  - `http.rs`: the request-line and header-line parsers, the line-by-line
    request reader and its specification, the response writer.
  - `headers.rs`: the header map.
  - `tail.rs`: where `tail` starts printing, what it prints, and how standard
    input is turned into line-terminated text.
  - `files.rs`: error numbers and their messages, line-feed counting for
    `wc`, and the directories `mkdir -p` creates.
  - `grep.rs`: the per-line decision of `grep`, calling the `regex` crate.
- `app/main.rs` holds the system calls and I/O; the tool is chosen by the
  program name or the first argument.
- `tests/` runs the library on concrete values.
