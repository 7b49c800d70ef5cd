# claw-runtime

The decisions of an agentic command line tool's runtime, written and proved in Verus.

- **Memory and dreams** (`src/dreamer/`). Notes are appended to daily logs. A dream reads the
  logs, newest first and within a budget, has a model consolidate them, and writes `MEMORY.md`
  and topic files. Proved, among other things: a dream works only under its lock; a dream without
  logs, lock, reply or valid output changes no file; success means that the memory was written;
  files that are put into a reply as blocks are read back as they were.
- **Turns** (`src/turn_service.rs`). A turn of a conversation and the dream that may follow it. A
  dream that fails never fails the turn.
- **Orchestration** (`src/mao/`). A manager splits a prompt into tasks, agents do them, and the
  results are put together. Proved: the manager is never asked more often than it may be, the
  splitting comes to an end, each task has its result, and the results do not depend on which agent
  is done first.
- **Ground work** (`src/text.rs`, `src/paths.rs`, `src/clock.rs`, `src/sorting.rs`,
  `src/json.rs`). Texts, paths, dates, a stable sort, and JSON through `serde_json`.

The library does no input or output. Where such work comes between decisions, a type such as
`DreamPass` or `Decomposition` says what is to be done next and takes what came of it. `app/` does
the work: files, the clock, and models that are asked on a `tokio` runtime.

A directory is whatever the caller takes for a path, and the library names only what lies below
it. The paths that are judged are those that come as texts: the configured memory directory, and
the files that a model wants to have written. `PathStyle` says whether they are judged as Unix or
as Windows has them. Log files are found by number, so that their names need not be texts.

What is trusted is marked where it stands: `String::push` in `src/text.rs`, the calls into
`serde_json` in `src/json.rs`, and `char::to_uppercase` in `src/mao/report.rs`.
