# ors

A terminal knowledge log: commands are run and recorded as markdown entries,
grouped under the current track, and searched, shown, re-run, opened or
deleted later. Record files live under `$ORS_RECORDS_DIR` in `commands/`,
`tracks/` and `writeups/`.

## Layout

- `src/` is the library, verified with Verus. It holds the record format
  (how an entry is written and how a file is read back into sections), the
  listings and their order, the search requests and what each one asks for,
  line deletion, table layout, the clean-up of pseudo-terminal output and the
  decisions of the pseudo-terminal session loop. Each public function states
  its result in its contract; the laws of the library are public proof
  functions named `law_*`.
- `app/` is the `rust-ors` command: argument parsing, reading and writing
  files, running commands, colours and the terminal. It hands the library
  plain values and carries out what the library decides.
- `tests/` runs the library on concrete inputs.
