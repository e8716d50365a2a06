# moss

Moss is a task runner. A `Mossfile` declares tasks, their shell commands, and flags
such as `deps=[…]`, `parallel`, `watch="<glob>"`, `ready="<pattern>"` and `args=[…]`.

This crate is the verified core of the runner, written in Verus: every function in
`src/` carries a `requires`/`ensures` contract that Verus proves.

## Layout

- `src/` — the library.
  - `text.rs` — characters, UTF-8 byte offsets, substring search and replacement.
  - `ast.rs`, `error.rs` — the tree of a Mossfile and parse errors with locations.
  - `lexer.rs`, `parser.rs`, `validate.rs`, `paths.rs` — reading a Mossfile: the token
    language and the grammar as spec functions, and the checks that a parsed file has
    unique task names, known dependencies, declared placeholders and no cycle.
  - `flag_order.rs` — the laws that the order of a header's flags does not matter:
    for two neighbours swapped, and for any reordering.
  - `graph.rs` — the dependency graph and Kahn's execution order.
  - `runner.rs` — the plan of a run: the tasks in order, their commands with arguments
    substituted, the steps of the run as a state machine, and what the end of a command
    means.
  - `parallel.rs`, `ready.rs`, `watcher.rs`, `output.rs` — fail-fast bookkeeping,
    readiness detection, glob matching and the watch root, and the task list rows.
- `app/` — the command-line program around the library: argument parsing, file and
  process I/O, the async run loop, the file watcher and coloured output.
- `tests/` — tests of the library on concrete Mossfiles.

The laws that the library states and proves are the public `law_*` proof functions.
