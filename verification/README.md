# crusts

crusts turns a C project into Rust with c2rust, rewrites the result with TXL
rules, and measures how much of it stays `unsafe`.

- `src/` is the library, verified with Verus: the decisions of the pipeline
  (which steps run, which build commands the conversion needs, in which
  order), the Makefile it writes, the TXL rule list and search path, the
  reading of the curs model's predictions, the removal of `unsafe` keywords and
  their return where the compiler reports errors, the reading of cargo's
  compiler diagnostics, and the counting of functions and compiler messages
  in tool output. `src/text.rs` holds the
  string operations these rest on, each with a specification.
- `app/` is the command-line program: it parses the options, runs the outside
  commands, walks and writes the files, logs, and downloads the rules.
- `tests/` runs the library on concrete inputs.
