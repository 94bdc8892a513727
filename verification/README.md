# genpass

A password generator whose core is verified with Verus.

- `src/config.rs` — the compact format language (`W4s2w3d5`: a type letter
  and an optional length per element), its parser, and the configuration
  built from command-line values.
- `src/generator.rs` — random words, pronounceable words, digits and symbols,
  and whole passwords that follow a format.
- `src/element_list.rs` — formats given as separate element words
  (`w4 s1 d4`).
- `src/text.rs` — character helpers and the standard-library calls used by the
  parser.
- `app/` — the command line: argument parsing with clap, the memory file of
  the last format, error messages, printing.
