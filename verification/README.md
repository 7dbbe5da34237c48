# cch

A command line to navigate coding-assistant session transcripts (JSONL files,
one directory per project): `session`, `show`, `grep`, `blame`, `commits`.

The logic is a Verus library in `src/`, verified against its contracts:

- `text.rs` — the character model of strings (UTF-8 widths, trimming,
  splitting, searching, decimal text) shared by every module.
- `transcript.rs` — the event model, and decoding an event record into it.
- `timebounds.rs` — `--after`/`--before` bounds and the UTC timestamp format.
- `turns.rs` — the `--turns` selector: parsing and resolving to a window.
- `session.rs`, `paths.rs` — first prompts, resolving a session by id prefix,
  project directory names.
- `order.rs` — the stable orderings used by the listings.
- `commands/` — each subcommand's filters, scoring and rendering; `grep` is a
  state machine over a transcript's events (`commands/grep/scan.rs`).
- `cli.rs` — the command line's arguments and what each subcommand is asked.

Public proof functions named `law_*` state properties that hold across the
library (turn numbering shared by `grep` and `show`, the caps and filters of
a scan, the ranking of `blame`, the calendar arithmetic of `commits`, …).

`app/` is the executable around it: argument parsing with clap, reading the
transcript store and `git`, and printing. `tests/` exercises the library.
