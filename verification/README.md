# own

Track code ownership, line by line: which lines of a file a person has read, tagged
and annotated. Records live in `.own/<file>.own`, tags in `.own/tags`.

The library (`src/`) is written in Verus and proved against its contracts:

- `store` — tag records per file (`5:r,approved:hash`, `@5-10:note`, `snapshot: ...`),
  reading and writing them, setting tags and notes, snapshots, and re-anchoring entries
  after the file changed; `store_laws` proves that a record written and read back is the
  same record, and what a note read after writing gives.
- `tags` — the tags file and the tag commands, with the save/load law.
- `review` — the review session as a state machine: one key in, the next state and an
  action (save, quit) out.
- `own`, `extract`, `migrate`, `line_review`, `listing` — the line-state ledger
  (`3-6:r`, `10:q:note`): parsing, writing in runs, extracting ranges, carrying states
  over to a changed file, and its own review session.
- `ignore` — `.ownignore`/`.gitignore` patterns, compiled by the `glob` crate; the last
  pattern that matches decides, so a later `!` pattern takes a path back in, while `.git`
  and `.own` always stay out.
- `tally`, `screen`, `target` — owned-line counts, directory groups and sums for the
  scan and status reports; the gutter marks and labels of the review screens; the check
  on the file a command is given.
- `color`, `report`, `text`, `strmap`, `keyorder`, `hashing` — colors, report lines,
  text handling, an ordered string map, ordered keys, and content hashes (SHA-256, by
  the `sha2` crate, for a file's snapshot).

`app/` is the command line around it: argument parsing (clap), files, the terminal
screens (crossterm, ratatui), JSON output (serde_json), and the floating-point parts
(percentages, HSL colors).
