# jake

A make-like task runner for Unix: tasks are defined in a `jakefile.toml` (or taken from the
`scripts` of a `package.json`), run through `sh -c`, after their dependencies, with circular
dependencies detected.

- `src/` is the verified library (Verus): the model of TOML and JSON documents, task
  definitions, depth-first dependency resolution, the commands to run with their options,
  `package.json` scripts, the boilerplate jakefile, and the proofs of what resolution
  guarantees (`src/laws.rs`).
- `app/` is the command line around it: arguments, files, the `.env` environment and the
  shell.
- `tests/` exercise the library on concrete jakefiles and `package.json` texts.
