# cade

A cascading environment manager: `.cade` files in nested directories are
composed parent-first into one environment, which is written to the shell
as safely quoted statements and undone on exit.

The library under `src/` is verified with Verus:

- `text`, `assoc`, `order`: strings, variable tables and name sorting
- `types`, `compose`: layers and their composition (`rollup_envs`), with
  the laws of composition
- `envs`, `parse`, `envrc`, `cadefile`: `.env` text, development-shell
  JSON, `.cade` lines and files, and the declarative subset of `.envrc`
- `shells`: statements for fish, bash, zsh, nushell, elvish and murex,
  with the quoting laws
- `session`: session ids, snapshots of the ambient environment, key lists
- `script`: the statements of an activation and of a restore, their effect
  on an environment, and the law that exiting gives back the environment
  the shell had before its first activation: each variable that is neither
  the shell's nor cade's own, and that the snapshot reads back as it stood,
  whatever names the composed layers hold
- `control`: roots, layer chains and permissions, reloads, watches, and
  the lines cade reports
- `config`, `verbosity`, `cli`, `external`: settings, the command line,
  and the calls into std, `serde_json` and `shlex`

`app/` is the `cade` command: argument parsing, the process environment,
the file system, the permission and layer cache database, and running nix
and other loaders.
