# ec_engine

A completion engine for shell command lines: given an edit buffer, a caret and
descriptions of commands, it says which subcommands, options, arguments, paths
and history lines to offer, and in which order.

The engine is a library of decisions. It is written in Verus, and its functions
state what they compute. What a JavaScript hook replies is the hook's own: the
functions that build its program and those that read its reply are stated apart,
and the few that run it in between promise little or nothing.

Nothing in the library reads a file or starts a process: where a decision depends
on the outside, the function takes what is known so far and either finishes or
says what it needs next. Regular expressions (`fancy_regex`), JSON (`serde_json`)
and JavaScript hooks (`rquickjs`) are called behind small functions whose
contracts say what is relied on.

## Layout

- `src/lookup/`: shell words, the walk through a spec, the argument under the
  caret, and the rows that are offered there.
- `src/generate/`: rows from scripts, git, package descriptions and hooks, with
  the session that decides which generators run again.
- `src/filegen/`: rows for paths.
- `src/rank/`: history, acceptances, and the order of rows.
- `src/js_host/`: programs for hooks, their replies, and what is kept of them.
- `src/engine.rs`: from a request to ranked rows.
- `src/registry.rs`, `src/references.rs`, `src/nesting.rs`, `src/index.rs`: the
  specs of commands.
- `src/paths.rs`: paths as text.
- `src/process.rs`, `src/worker.rs`: what to do next with a child process and
  with queued requests.
- `app/`: files, processes, threads and `serde` around the library.
- `tests/`: the library from outside.

Public proof functions named `law_..` state what holds across functions.
