# lab_rs

A library for reading, writing and manipulating HTK `.lab` label files, with
its behaviour stated in Verus contracts and proved, and the `lab` command-line
tool around it.

- `src/` — the verified library.
  - `text.rs`: whitespace as `char::is_whitespace` decides, characters of strings.
  - `number.rs`: decimal times (writing, and reading as `u64::from_str` does),
    score tokens (what `f64::from_str` accepts).
  - `seconds.rs`: a count of units in seconds with a given number of
    decimals, as the `f64` quotient prints, computed exactly in integer
    arithmetic, and the tab-separated and Audacity lines of a label in seconds.
  - `syntax.rs`: the token syntax of a line (bare words, quoted text with
    backslash escapes) and its lexer, with the lemmas that concatenation obeys.
  - `label.rs`: `Label`, parsing a line, writing a label (quoting text where it
    would not read back otherwise), and the proof that a written label reads
    back as itself.
  - `file.rs`: `LabFile`, parsing and writing whole files, lookups, shifting,
    merging, validation, the sorted distinct texts, and their laws.
  - `error.rs`: the error types and their messages.
- `app/` — the `lab` binary: argument handling, file and stream I/O, the
  operations that work in seconds (they compute with `f64`), JSON output.
- `tests/` — tests of the library.
