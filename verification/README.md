# grcrs

A generic colouriser in two programs: `grc` runs a command and pipes its
output through `grcat`, which colours each line with the ANSI escapes that
a colourfile of `regexp=` / `colours=` blocks asks for.

The library in `src/` holds the logic, each function with a contract proved
by Verus:

- `text`, `units` — character and byte views of lines: trimming, splitting,
  decimal parsing, UTF-8 widths, byte-offset to character-index conversion,
  and the lossless decoding that keeps every input byte (invalid UTF-8
  included).
- `escape` — Python string-literal escapes, the `\<` / `\>` rewrite of
  regexp sources, and `\N` backreferences in replacements.
- `colour`, `config` — the colour table and the colourfile grammar.
- `regex` — the regular-expression engine (fancy-regex) behind trusted
  wrappers whose results are named.
- `colourise` — the per-line matching loop (`count` directives, `block`,
  `previous`, `replace`, `skip`, `concat`, `command`, trend requests) as a
  state machine, proved to end on every line.
- `render` — the colour before every character, the previous colour carried
  to the next line, and the bytes written.
- `options`, `select` — the launcher's command line, and the choice of
  `grc.conf` files, colourfile directories and colourfile.

`app/main.rs` is the ordinary Rust around it: reading files and standard
input, running commands and pseudo-terminals, and the trend colours (which
compare floating-point values). `tests/` exercises the library.
