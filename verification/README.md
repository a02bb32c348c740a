# pgn-tools

Sorts and filters PGN chess game files by their `[Date]` tag, as a library
whose behaviour is stated in Verus contracts and proved, with a thin
command-line program around it.

- `src/text.rs` — the character-level model (whitespace trimming, `lines`,
  splitting, `"??"` → `"01"`, `i32` parsing) and its verified code.
- `src/date.rs` — calendar arithmetic, PGN date reading, Date tag extraction;
  laws: timestamps order valid dates chronologically, year lengths.
- `src/lib.rs` — `PgnGame` and `parse_games` (game blocks of a PGN text).
- `src/sort.rs` — stable merge sort by timestamp; laws: a stable sort is
  unique, filtering commutes with sorting.
- `src/filter.rs` — filter expressions and selection (in parallel with
  rayon); laws: exact filters select years, months and days as time ranges,
  the texts `Y`, `>= Y` and `< Y+1` agree, `<`/`>=` and `<=`/`>` are
  complements.
- `src/reparse.rs` — law: the written output parses back to the same games.
- `src/util.rs` — decoding file bytes, invalid-UTF-8 counting, output
  formatting; law: output ends with the input's trailing newlines.
- `src/cli.rs` — output paths (including `--filter-file`), argument check,
  sort direction.
- `app/main.rs` — argument parsing (clap), file I/O, messages.
