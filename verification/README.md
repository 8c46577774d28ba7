# dotsync

Manage dotfiles with a `stow`-style repository: `config` records where the
repository lives, `add` copies a file or directory from `$HOME` into it,
`apply` copies the repository back onto `$HOME`, and `readd` refreshes the
repository from `$HOME`. Paths matching `.dotsyncignore` (gitignore-style
patterns, last match wins) are skipped; a pattern with a `/` is read from
the repository root, also when `apply` is scoped to a subdirectory.

## Layout

- `src/` — the verified library:
  - `text.rs`: whitespace trimming, line splitting, string building;
  - `paths.rs`: `/`-separated paths as component lists (join, strip prefix,
    parent, file name) and the lemmas relating them;
  - `ignore.rs`: pattern normalization and the ignore rules, compiled and
    matched by `globset`;
  - `sync.rs`: options, errors, the per-entry decisions of `apply`, `add`
    and `readd`, and where each of their walks takes a file;
  - `units.rs`: the ordered, duplicate-free set of re-add units;
  - `config.rs`: the configuration file's path and its `destination` line;
  - `cli.rs`: the command-line grammar and its messages.
- `app/` — the `dotsync` program: environment, directory walks, copies and
  rsync, printing.
- `tests/` — tests of the library on concrete values.
