# squaredle_cli

A terminal companion for the daily Squaredle puzzle: it fetches the site's
configuration script, reads today's grid and word lists out of it, decodes the
word lists, and prints the puzzle as framed text or as JSON.

The library under `src/` is written in Verus and verified:

- `cipher` — the 62-character substitution cipher (a shift of twelve places back),
  the padding to whole base64 quads, base64 and UTF-8 decoding, and the splitting
  of the decoded text into words; the cipher is proved to be a permutation that
  undoes the encoder's shift.
- `fetcher` — the grammar of the configuration script (today's date, the day's
  entry, the board rows and the encoded word lists) and the reading of a puzzle
  out of it, with an exact specification of the result and of each error.
- `display` — grouping of the words by length (in characters for the word lists
  shown, in UTF-8 bytes for the JSON output), sorting, the tables' rows, the
  summary lines and the layout of the puzzle text, in which every piece is tied to
  the puzzle (with colours off, as with `--no-color` or `NO_COLOR`, nothing is
  styled); the model of the JSON output.
- `cli` — the command line and the decisions of a run.
- `scan`, `text`, `classes`, `order` — text search and replacement, strings and
  numerals, the Unicode classes of the script's grammar, and lexicographic sorting.
- `render` — the calls into `colored` and `comfy_table` that style and draw text.

`app/main.rs` holds the program: argument parsing with clap, the HTTP request,
JSON serialisation and printing.
