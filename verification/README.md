# git-perms

Store and restore Unix file permissions across git operations. Git only
tracks the executable bit; `git perms` records full mode bits in a
`.gitperms` file (one `MODE PATH` line per file, mode in four octal digits)
that is committed with the code.

## Layout

- `src/` — the library, verified with Verus:
  - `perms.rs`: the `.gitperms` format (`parse`, `serialize`), the order of
    entries, `scan`, `apply`, `diff` and the report that `git perms diff` prints;
  - `path.rs`: paths, compared component by component as `std::path::Path`
    does, through an integer key per path;
  - `text.rs`: characters, lines, trimming and substring search;
  - `git.rs`: the values read from git's output, and the pre-commit mode;
  - `hooks.rs`: the hook scripts and when one may be written or removed;
  - `laws.rs`: what holds across functions (the format reads back what it
    writes; `diff` reports exactly the differences);
  - `error.rs`, `config.rs`: the error type and the hook subcommand.
- `app/main.rs` — the command: argument parsing, running git, reading and
  writing files, setting modes.
- `tests/` — tests of the library.
