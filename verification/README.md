# playback

A small workflow manager. Workflows are written in a TOML dialect whose
values may be conditional (`if os == "linux" { [...] } else { [...] }`);
running a workflow evaluates its steps against a set of variables and runs
each step's command through a shell, in the order given by the steps'
`order` fields.

The library in `src/` is verified with Verus:

- `parser/` reads documents (`parse`), with a mathematical model of the
  grammar in `parser/spec.rs` that every parsing function is proved to
  follow, the proof that parsed tables never hold a key twice
  (`parser/keys.rs`), and what the table operations do to the paths of a
  table (`parser/paths.rs`).
- `engine/` holds the variables of a run (`context`), the evaluation of
  conditions and conditional values (`eval`), and what each step asks to
  run (`exec`).
- `schemas/` decodes configuration and workflow documents into records,
  sorting steps stably by order.
- `workflow/` turns arguments into command lines: placeholders, quoting,
  the shell invocation, and the variables of a run, where bare
  command-line arguments bind the positional arguments that the workflow
  declares under `[workflow.arguments]`.
- `logger.rs` and `cli.rs` hold the decisions behind logging and the
  command line.

`app/` is the program around it: argument parsing with `miniclap`, the log
threshold, reading workflow files and starting processes.
