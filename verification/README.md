# language_evolution

Follows the migration of a code base from JavaScript to TypeScript. Each run
counts the `.ts/.tsx` and `.js/.jsx` files of some folders with `rg`, compares
the counts with the last entry of `TYPESCRIPT_EVOLUTION.csv` (read with `xsv`),
prints a six-row report and, unless it is a dry run, replaces the last lines of
the log with the new rows.

Layout:

- `src/` is the verified library (Verus):
  - `text.rs`: white space, trimming, cutting at a character, reading and
    writing integers;
  - `commands.rs`: the exact shell commands;
  - `log.rs`: decoding command output and the decisions on the log
    (version to record, entry checks, last record, line removal);
  - `json.rs`: the counts object read back with `serde_json`;
  - `clock.rs`: the date, written with `chrono`;
  - `report.rs`: the counts object, the figures and the six rows;
  - `run.rs`: a run as a state machine that asks for commands, text and
    percentages, and is told what came back;
  - `error.rs`: why a run stops.
- `app/` is the command-line program: options, running the commands, the
  clock, the percentages (floating point) and printing.
- `tests/` runs the library on concrete values.
