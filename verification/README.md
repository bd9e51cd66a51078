# diffview

A terminal tool for reviewing a unified (git) diff hunk by hunk. It reads a
diff from stdin, lets you fold, navigate and confirm files and hunks, and
can write the confirmed part back out as a diff.

```
git diff | diffview
jj diff | diffview
```

## Layout

- `src/` — the library, verified with Verus:
  - `text.rs`: character-level helpers (line splitting, prefixes, number
    parsing, trimming, searching).
  - `parser.rs`: ANSI stripping, the diff parser as a state machine over
    lines, and the formatter of confirmed hunks.
  - `round_trip.rs`: what the formatter writes, the parser reads back.
  - `fuzzy/`: the Smith-Waterman fuzzy matcher used by the file search,
    with its banding, bonuses, traceback and prefilters.
  - `model.rs`: the review state — visible items, folding, confirmation,
    cursor and scrolling, the file view, the file search, key handling, and
    the layout of each frame (rows per item, scroll offsets).
  - `display.rs`: line numbers, wrapping and clipping by display width, the
    file view's scroll offset, and match highlighting.
- `app/` — the terminal front end (ratatui and crossterm): reading stdin,
  drawing frames, and turning terminal events into key presses.
- `tests/` — tests of the library.

Every library function carries a contract over a mathematical model of the
data (`Seq`, `Set`, spec functions), and the laws of the library — the
round trip of format and parse, file navigation wrapping around, the file
search ordering, scrolling keeping the cursor in view — are proof
functions checked by Verus.
